//! Tokens, the infix-to-postfix conversion, and the text rendering of
//! postfix tokens.
use vstd::prelude::*;
use vstd::string::StrSliceExecFns;

use crate::error::CalcError;
use crate::lexer::{
    fragments, is_separator, is_white_space, lemma_fragments_prefix, lemma_tokens_of_prefix_error,
    read_token, tokenize, tokens_of,
};

verus! {

/// One token of an expression: an operator symbol or an integer operand.
#[derive(Debug, Clone, Copy, PartialEq, Eq, Hash, Structural)]
pub enum Stackable {
    /// An operator, by its symbol.
    Operation(char),
    /// An integer operand.
    Value(i32),
}

/// Whether `c` is one of the four operator symbols.
pub open spec fn is_operator(c: char) -> bool {
    c == '+' || c == '-' || c == '*' || c == '/'
}

/// Binding strength of an operator: multiplicative operators bind tighter
/// than additive ones.
pub open spec fn prec(c: char) -> int {
    if c == '*' || c == '/' {
        5
    } else if c == '+' || c == '-' {
        4
    } else {
        0
    }
}

/// Executable form of `prec`.
pub fn precedence(c: char) -> (r: u8)
    ensures
        r as int == prec(c),
{
    match c {
        '*' | '/' => 5,
        '+' | '-' => 4,
        _ => 0,
    }
}

/// Precedence of a token on the operator stack (only operators are pushed).
pub open spec fn token_prec(t: Stackable) -> int {
    match t {
        Stackable::Operation(c) => prec(c),
        Stackable::Value(_) => 0,
    }
}

/// Moves operators from the top of `stack` to the end of `out` for as long as
/// the top binds at least as tightly as `p`.
pub open spec fn pop_while(out: Seq<Stackable>, stack: Seq<Stackable>, p: int) -> (Seq<
    Stackable,
>, Seq<Stackable>)
    decreases stack.len(),
{
    if stack.len() > 0 && p <= token_prec(stack.last()) {
        pop_while(out.push(stack.last()), stack.drop_last(), p)
    } else {
        (out, stack)
    }
}

/// One step of the shunting-yard algorithm on the pair (output, operator
/// stack): an operand goes to the output; an operator first pops every
/// operator of equal or higher precedence, then is pushed.
pub open spec fn shunt_step(st: (Seq<Stackable>, Seq<Stackable>), t: Stackable) -> (Seq<
    Stackable,
>, Seq<Stackable>) {
    match t {
        Stackable::Value(_) => (st.0.push(t), st.1),
        Stackable::Operation(c) => {
            let popped = pop_while(st.0, st.1, prec(c));
            (popped.0, popped.1.push(t))
        },
    }
}

/// The (output, operator stack) pair after all of `ts` went through
/// `shunt_step`, from an empty output and stack.
pub open spec fn shunt(ts: Seq<Stackable>) -> (Seq<Stackable>, Seq<Stackable>)
    decreases ts.len(),
{
    if ts.len() == 0 {
        (seq![], seq![])
    } else {
        shunt_step(shunt(ts.drop_last()), ts.last())
    }
}

/// `out` followed by the operators of `stack` in the order they are popped.
pub open spec fn drain(out: Seq<Stackable>, stack: Seq<Stackable>) -> Seq<Stackable>
    decreases stack.len(),
{
    if stack.len() == 0 {
        out
    } else {
        drain(out.push(stack.last()), stack.drop_last())
    }
}

/// The postfix form of an infix token sequence.
pub open spec fn to_postfix(ts: Seq<Stackable>) -> Seq<Stackable> {
    let st = shunt(ts);
    drain(st.0, st.1)
}

/// Decimal digits of a natural number, most significant first.
pub open spec fn digits(n: nat) -> Seq<char>
    decreases n,
{
    if n < 10 {
        seq![((0x30 + n) as u8) as char]
    } else {
        digits(n / 10).push(((0x30 + n % 10) as u8) as char)
    }
}

/// Decimal text of an integer, with a leading `-` when it is negative.
pub open spec fn decimal(n: int) -> Seq<char> {
    if n < 0 {
        seq!['-'] + digits((-n) as nat)
    } else {
        digits(n as nat)
    }
}

/// Text of one token: an operand in decimal, an operator as its symbol.
pub open spec fn token_text(t: Stackable) -> Seq<char> {
    match t {
        Stackable::Value(n) => decimal(n as int),
        Stackable::Operation(c) => seq![c],
    }
}

/// The texts of the tokens joined by single spaces.
pub open spec fn rendering(ts: Seq<Stackable>) -> Seq<char>
    decreases ts.len(),
{
    if ts.len() == 0 {
        seq![]
    } else if ts.len() == 1 {
        token_text(ts[0])
    } else {
        rendering(ts.drop_last()) + seq![' '] + token_text(ts.last())
    }
}

/// Relies on `i32`'s `Display` (through `ToString::to_string`): a `-` for a
/// negative value, then the decimal digits of its magnitude.
#[verifier::external_body]
fn i32_text(n: i32) -> (r: String)
    ensures
        r@ == decimal(n as int),
{
    n.to_string()
}

/// Relies on `char`'s `Display` (through `ToString::to_string`): the
/// character alone.
#[verifier::external_body]
fn char_text(c: char) -> (r: String)
    ensures
        r@ == seq![c],
{
    c.to_string()
}

/// Precedence of a token, as `token_prec`.
fn stacked_precedence(t: &Stackable) -> (r: u8)
    ensures
        r as int == token_prec(*t),
{
    match t {
        Stackable::Operation(c) => precedence(*c),
        Stackable::Value(_) => 0,
    }
}

/// Renders tokens as text: each token's text, separated by single spaces.
pub fn render(tokens: &Vec<Stackable>) -> (r: String)
    ensures
        r@ == rendering(tokens@),
{
    let mut out = String::new();
    for i in 0..tokens.len()
        invariant
            out@ == rendering(tokens@.take(i as int)),
    {
        let ghost prev = tokens@.take(i as int);
        assert(tokens@.take(i + 1).drop_last() =~= prev);
        if i > 0 {
            out.append(" ");
            proof {
                reveal_strlit(" ");
            }
        }
        let text = match tokens[i] {
            Stackable::Value(n) => i32_text(n),
            Stackable::Operation(c) => char_text(c),
        };
        out.append(text.as_str());
        proof {
            if i == 0 {
                assert(out@ =~= rendering(tokens@.take(i + 1)));
            } else {
                assert(out@ =~= rendering(tokens@.take(i + 1)));
            }
        }
    }
    assert(tokens@.take(tokens.len() as int) =~= tokens@);
    out
}

/// Whether `e` reports the fragment `f` as malformed.
pub open spec fn is_malformed(e: CalcError, f: Seq<char>) -> bool {
    e is MalformedOperand && e->MalformedOperand_0@ == f
}

/// Whether `r` is the outcome that tokenizing text with the given spec
/// result calls for: the tokens, or `MalformedOperand` with the first
/// fragment that is no token.
pub open spec fn parse_outcome(
    r: Result<Vec<Stackable>, CalcError>,
    t: Result<Seq<Stackable>, Seq<char>>,
) -> bool {
    match t {
        Ok(ts) => r is Ok && r->Ok_0@ == ts,
        Err(f) => r is Err && is_malformed(r->Err_0, f),
    }
}

/// Infix-to-postfix conversion of a text, and the postfix rendering.
pub struct Converter {
    /// The infix text.
    pub raw: String,
    /// The postfix tokens rendered as text.
    pub result: String,
    /// The postfix tokens.
    pub postfix: Vec<Stackable>,
}

impl View for Converter {
    type V = Seq<Stackable>;

    /// The postfix tokens.
    open spec fn view(&self) -> Seq<Stackable> {
        self.postfix@
    }
}

impl Converter {
    /// Tokenizes `raw` and converts it to postfix order, keeping both the
    /// postfix tokens and their rendering in `result`.
    pub fn convert(raw: String) -> (r: Result<Converter, CalcError>)
        ensures
            match tokenize(raw@) {
                Ok(ts) => r is Ok && r->Ok_0@ == to_postfix(ts) && r->Ok_0.result@ == rendering(
                    to_postfix(ts),
                ) && r->Ok_0.raw@ == raw@,
                Err(f) => r is Err && is_malformed(r->Err_0, f),
            },
    {
        let tokens = match Converter::parse(raw.as_str()) {
            Ok(tokens) => tokens,
            Err(e) => return Err(e),
        };
        let postfix = Converter::process(&tokens);
        let result = render(&postfix);
        Ok(Converter { raw, result, postfix })
    }

    /// The postfix tokens.
    pub fn postfix(&self) -> (r: &Vec<Stackable>)
        ensures
            r@ == self@,
    {
        &self.postfix
    }
    /// Splits `raw_value` at whitespace and reads each fragment as a token.
    pub fn parse(raw_value: &str) -> (r: Result<Vec<Stackable>, CalcError>)
        ensures
            parse_outcome(r, tokenize(raw_value@)),
    {
        let ghost s = raw_value@;
        let n = raw_value.unicode_len();
        let mut tokens: Vec<Stackable> = Vec::new();
        let mut start: usize = 0;
        let mut i: usize = 0;
        for c in it: raw_value.chars()
            invariant
                n == s.len(),
                s == raw_value@,
                it.seq() == s,
                i == it.index(),
                start <= i <= s.len(),
                start > 0 ==> is_white_space(s[start - 1]),
                forall|k: int| start <= k < i ==> !is_white_space(#[trigger] s[k]),
                fragments(s.take(i as int)) == if start < i {
                    fragments(s.take(start as int)).push(s.subrange(start as int, i as int))
                } else {
                    fragments(s.take(start as int))
                },
                tokens_of(fragments(s.take(start as int))) == Ok::<Seq<Stackable>, Seq<char>>(
                    tokens@,
                ),
        {
            assert(c == s[i as int]);
            let ghost t = s.take(i + 1);
            assert(t.drop_last() =~= s.take(i as int));
            if is_separator(c) {
                if start < i {
                    let frag = raw_value.substring_char(start, i);
                    let ghost fs = fragments(s.take(start as int));
                    assert(fragments(t).drop_last() =~= fs);
                    match read_token(frag) {
                        Some(tok) => tokens.push(tok),
                        None => {
                            proof {
                                assert(s.take(s.len() as int) =~= s);
                                lemma_fragments_prefix(s, i + 1, s.len() as int);
                                lemma_tokens_of_prefix_error(fragments(t), fragments(s));
                            }
                            return Err(CalcError::MalformedOperand(frag.to_owned()));
                        },
                    }
                }
                start = i + 1;
            } else {
                if start < i {
                    assert(s.subrange(start as int, i as int).push(c) =~= s.subrange(
                        start as int,
                        i + 1,
                    ));
                } else {
                    assert(s.subrange(start as int, i + 1) =~= seq![c]);
                }
            }
            i = i + 1;
        }
        assert(s.take(s.len() as int) =~= s);
        if start < i {
            let frag = raw_value.substring_char(start, i);
            assert(fragments(s).drop_last() =~= fragments(s.take(start as int)));
            match read_token(frag) {
                Some(tok) => tokens.push(tok),
                None => return Err(CalcError::MalformedOperand(frag.to_owned())),
            }
        }
        Ok(tokens)
    }

    /// Reorders infix tokens into postfix order with the shunting-yard
    /// algorithm: operators of equal precedence leave the stack before the
    /// new one is pushed, so that they apply left to right.
    pub fn process(tokens: &Vec<Stackable>) -> (r: Vec<Stackable>)
        ensures
            r@ == to_postfix(tokens@),
    {
        let mut q: Vec<Stackable> = Vec::new();
        let mut s: Vec<Stackable> = Vec::new();
        for i in 0..tokens.len()
            invariant
                (q@, s@) == shunt(tokens@.take(i as int)),
        {
            assert(tokens@.take(i + 1).drop_last() =~= tokens@.take(i as int));
            let value = tokens[i];
            match value {
                Stackable::Value(_) => q.push(value),
                Stackable::Operation(c) => {
                    let p = precedence(c);
                    let ghost target = pop_while(q@, s@, p as int);
                    while s.len() > 0 && p <= stacked_precedence(&s[s.len() - 1])
                        invariant
                            pop_while(q@, s@, p as int) == target,
                        decreases s.len(),
                    {
                        let top = s.pop().unwrap();
                        q.push(top);
                    }
                    s.push(value);
                },
            }
        }
        assert(tokens@.take(tokens.len() as int) =~= tokens@);
        while s.len() > 0
            invariant
                drain(q@, s@) == to_postfix(tokens@),
            decreases s.len(),
        {
            let top = s.pop().unwrap();
            q.push(top);
        }
        q
    }
}

} // verus!
