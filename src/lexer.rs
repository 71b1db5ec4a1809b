//! Splitting text into whitespace-separated fragments, and reading each
//! fragment as a token.
use vstd::prelude::*;

use crate::converter::{is_operator, Stackable};

verus! {

/// The characters with Unicode's `White_Space` property: the set on which
/// `char::is_whitespace` is true.
pub open spec fn is_white_space(c: char) -> bool {
    let n = c as u32;
    (0x9 <= n && n <= 0xd) || n == 0x20 || n == 0x85 || n == 0xa0 || n == 0x1680 || (0x2000 <= n
        && n <= 0x200a) || n == 0x2028 || n == 0x2029 || n == 0x202f || n == 0x205f || n == 0x3000
}

/// Executable form of `is_white_space`.
pub fn is_separator(c: char) -> (r: bool)
    ensures
        r == is_white_space(c),
{
    let n = c as u32;
    (0x9 <= n && n <= 0xd) || n == 0x20 || n == 0x85 || n == 0xa0 || n == 0x1680 || (0x2000 <= n
        && n <= 0x200a) || n == 0x2028 || n == 0x2029 || n == 0x202f || n == 0x205f || n == 0x3000
}

/// The maximal runs of non-whitespace characters of `s`, left to right.
pub open spec fn fragments(s: Seq<char>) -> Seq<Seq<char>>
    decreases s.len(),
{
    if s.len() == 0 {
        seq![]
    } else {
        let prev = fragments(s.drop_last());
        let c = s.last();
        if is_white_space(c) {
            prev
        } else if s.len() >= 2 && !is_white_space(s[s.len() - 2]) {
            prev.update(prev.len() - 1, prev.last().push(c))
        } else {
            prev.push(seq![c])
        }
    }
}

pub open spec fn is_digit(c: char) -> bool {
    0x30 <= (c as u32) && (c as u32) <= 0x39
}

/// The value of a string of decimal digits.
pub open spec fn digits_value(s: Seq<char>) -> int
    decreases s.len(),
{
    if s.len() == 0 {
        0
    } else {
        digits_value(s.drop_last()) * 10 + ((s.last() as u32) - 0x30)
    }
}

/// One or more decimal digits and nothing else.
pub open spec fn is_digit_run(s: Seq<char>) -> bool {
    s.len() > 0 && forall|k: int| 0 <= k < s.len() ==> is_digit(#[trigger] s[k])
}

/// `s` read as a base-10 `i32`: an optional `+` or `-`, then one or more
/// decimal digits, whose value fits in `i32`. `None` for any other text.
pub open spec fn i32_literal(s: Seq<char>) -> Option<i32> {
    let signed = s.len() > 0 && (s[0] == '-' || s[0] == '+');
    let body = if signed { s.drop_first() } else { s };
    let magnitude = digits_value(body);
    let v = if signed && s[0] == '-' { -magnitude } else { magnitude };
    if is_digit_run(body) && i32::MIN <= v && v <= i32::MAX {
        Some(v as i32)
    } else {
        None
    }
}

/// The token a fragment stands for: one of the four operator symbols on its
/// own, else an `i32` literal; `None` when it is neither.
pub open spec fn token_of(f: Seq<char>) -> Option<Stackable> {
    if f.len() == 1 && is_operator(f[0]) {
        Some(Stackable::Operation(f[0]))
    } else {
        match i32_literal(f) {
            Some(v) => Some(Stackable::Value(v)),
            None => None,
        }
    }
}

/// The tokens of a list of fragments, or the first fragment that is no token.
pub open spec fn tokens_of(fs: Seq<Seq<char>>) -> Result<Seq<Stackable>, Seq<char>>
    decreases fs.len(),
{
    if fs.len() == 0 {
        Ok(seq![])
    } else {
        match tokens_of(fs.drop_last()) {
            Err(f) => Err(f),
            Ok(ts) => match token_of(fs.last()) {
                Some(t) => Ok(ts.push(t)),
                None => Err(fs.last()),
            },
        }
    }
}

/// The tokens of a text, or its first fragment that is no token.
pub open spec fn tokenize(s: Seq<char>) -> Result<Seq<Stackable>, Seq<char>> {
    tokens_of(fragments(s))
}

/// Relies on `str::parse::<i32>` (`<i32 as FromStr>::from_str`): it accepts
/// an optional sign and one or more ASCII digits whose value fits in `i32`,
/// and gives that value; it fails on anything else.
#[verifier::external_body]
fn parse_i32(s: &str) -> (r: Option<i32>)
    ensures
        r == i32_literal(s@),
{
    s.parse::<i32>().ok()
}

/// Reads one fragment as a token.
pub fn read_token(f: &str) -> (r: Option<Stackable>)
    ensures
        r == token_of(f@),
{
    let n = f.unicode_len();
    if n == 1 {
        let c = f.get_char(0);
        if c == '+' || c == '-' || c == '*' || c == '/' {
            return Some(Stackable::Operation(c));
        }
    }
    match parse_i32(f) {
        Some(v) => Some(Stackable::Value(v)),
        None => None,
    }
}

/// Once a prefix of the fragments fails to read, the whole list fails the
/// same way.
pub proof fn lemma_tokens_of_prefix_error(a: Seq<Seq<char>>, b: Seq<Seq<char>>)
    requires
        a.len() <= b.len(),
        b.take(a.len() as int) == a,
        tokens_of(a) is Err,
    ensures
        tokens_of(b) == tokens_of(a),
    decreases b.len(),
{
    if b.len() == a.len() {
        assert(b =~= a);
    } else {
        assert(b.drop_last().take(a.len() as int) =~= a);
        lemma_tokens_of_prefix_error(a, b.drop_last());
    }
}

/// The fragments of a prefix that ends at whitespace (or is empty) begin the
/// fragments of every longer prefix; a longer prefix that ends inside a
/// fragment has more of them.
pub proof fn lemma_fragments_prefix(s: Seq<char>, i: int, j: int)
    requires
        0 <= i <= j <= s.len(),
        i == 0 || is_white_space(s[i - 1]),
    ensures
        fragments(s.take(i)).len() <= fragments(s.take(j)).len(),
        fragments(s.take(j)).take(fragments(s.take(i)).len() as int) == fragments(s.take(i)),
        j > i && !is_white_space(s[j - 1]) ==> fragments(s.take(i)).len() < fragments(
            s.take(j),
        ).len(),
    decreases j - i,
{
    let a = fragments(s.take(i));
    if j == i {
        assert(fragments(s.take(j)).take(a.len() as int) =~= a);
    } else {
        lemma_fragments_prefix(s, i, j - 1);
        let t = s.take(j);
        assert(t.drop_last() =~= s.take(j - 1));
        let b = fragments(s.take(j - 1));
        let c = fragments(t);
        if is_white_space(t.last()) {
        } else if t.len() >= 2 && !is_white_space(t[t.len() - 2]) {
            assert(c.take(a.len() as int) =~= b.take(a.len() as int));
        } else {
            assert(c.take(a.len() as int) =~= b.take(a.len() as int));
        }
    }
}

} // verus!
