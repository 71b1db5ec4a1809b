//! Properties that relate conversion and evaluation.
use vstd::prelude::*;

use crate::converter::{
    drain, is_operator, pop_while, prec, shunt, shunt_step, to_postfix, Stackable,
};
use crate::error::CalcError;
use crate::lexer::tokenize;
use crate::processor::{combine, eval_postfix, eval_stack, eval_step};

verus! {

broadcast use vstd::seq_lib::group_to_multiset_ensures;

proof fn lemma_pop_while_keeps_tokens(out: Seq<Stackable>, stack: Seq<Stackable>, p: int)
    ensures
        pop_while(out, stack, p).0.to_multiset().add(pop_while(out, stack, p).1.to_multiset())
            =~= out.to_multiset().add(stack.to_multiset()),
    decreases stack.len(),
{
    if stack.len() > 0 && p <= crate::converter::token_prec(stack.last()) {
        assert(stack =~= stack.drop_last().push(stack.last()));
        lemma_pop_while_keeps_tokens(out.push(stack.last()), stack.drop_last(), p);
    }
}

proof fn lemma_drain_keeps_tokens(out: Seq<Stackable>, stack: Seq<Stackable>)
    ensures
        drain(out, stack).to_multiset() =~= out.to_multiset().add(stack.to_multiset()),
    decreases stack.len(),
{
    if stack.len() > 0 {
        assert(stack =~= stack.drop_last().push(stack.last()));
        lemma_drain_keeps_tokens(out.push(stack.last()), stack.drop_last());
    }
}

proof fn lemma_shunt_keeps_tokens(ts: Seq<Stackable>)
    ensures
        shunt(ts).0.to_multiset().add(shunt(ts).1.to_multiset()) =~= ts.to_multiset(),
    decreases ts.len(),
{
    if ts.len() > 0 {
        let prev = ts.drop_last();
        lemma_shunt_keeps_tokens(prev);
        assert(ts =~= prev.push(ts.last()));
        let st = shunt(prev);
        if let Stackable::Operation(c) = ts.last() {
            lemma_pop_while_keeps_tokens(st.0, st.1, prec(c));
        }
    }
}

/// Conversion to postfix only reorders tokens: the output holds each token
/// as many times as the input does, so in particular as many operands and as
/// many operators.
pub proof fn lemma_postfix_permutes_tokens(ts: Seq<Stackable>)
    ensures
        to_postfix(ts).to_multiset() =~= ts.to_multiset(),
        to_postfix(ts).len() == ts.len(),
{
    lemma_shunt_keeps_tokens(ts);
    lemma_drain_keeps_tokens(shunt(ts).0, shunt(ts).1);
    to_postfix(ts).to_multiset_ensures();
    ts.to_multiset_ensures();
}

pub open spec fn is_multiplicative(c: char) -> bool {
    c == '*' || c == '/'
}

pub open spec fn is_additive(c: char) -> bool {
    c == '+' || c == '-'
}

/// Operands and operators alternate, beginning and ending with an operand,
/// and every operator is one of the four symbols.
pub open spec fn well_formed_infix(ts: Seq<Stackable>) -> bool {
    &&& ts.len() % 2 == 1
    &&& forall|k: int|
        0 <= k < ts.len() ==> if k % 2 == 0 {
            #[trigger] ts[k] is Value
        } else {
            ts[k] is Operation && is_operator(ts[k]->Operation_0)
        }
}

/// Adds the finished term `term` to the running sum, if there is one.
pub open spec fn close_sum(sum: Option<(i32, char)>, term: i32) -> Result<i32, CalcError> {
    match sum {
        None => Ok(term),
        Some((s, a)) => combine(a, s, term),
    }
}

/// Direct left-to-right evaluation of a well-formed infix sequence, with
/// `*` and `/` binding tighter than `+` and `-`. After each operand the state
/// holds the running sum of the finished terms with the additive operator
/// that follows it (none before the first `+` or `-`), and the running
/// product of the current term. Each operation is checked as `combine` does;
/// the first error stays.
pub open spec fn infix_state(ts: Seq<Stackable>) -> Result<(Option<(i32, char)>, i32), CalcError>
    decreases ts.len(),
{
    if ts.len() < 3 {
        Ok((None, ts[0]->Value_0))
    } else {
        let op = ts[ts.len() - 2]->Operation_0;
        let v = ts[ts.len() - 1]->Value_0;
        match infix_state(ts.subrange(0, ts.len() - 2)) {
            Err(e) => Err(e),
            Ok((sum, term)) => if is_multiplicative(op) {
                match combine(op, term, v) {
                    Ok(t) => Ok((sum, t)),
                    Err(e) => Err(e),
                }
            } else {
                match close_sum(sum, term) {
                    Ok(total) => Ok((Some((total, op)), v)),
                    Err(e) => Err(e),
                }
            },
        }
    }
}

/// The value of a well-formed infix sequence under the usual precedence,
/// equal operators applying left to right.
pub open spec fn infix_value(ts: Seq<Stackable>) -> Result<i32, CalcError> {
    match infix_state(ts) {
        Err(e) => Err(e),
        Ok((sum, term)) => close_sum(sum, term),
    }
}

/// An infix state with a pending product whose last factor is not yet
/// applied.
spec fn pending(sum: Option<(i32, char)>, r: Result<i32, CalcError>) -> Result<
    (Option<(i32, char)>, i32),
    CalcError,
> {
    match r {
        Ok(t) => Ok((sum, t)),
        Err(e) => Err(e),
    }
}

/// How the shunting-yard state after a well-formed prefix stands to the
/// infix state of that prefix: the operator stack is empty, one operator, or
/// an additive one under a multiplicative one, and the values that
/// evaluating the output leaves, with those operators, give the infix state.
spec fn tracks(x: Seq<Stackable>) -> bool {
    let out = shunt(x).0;
    let stk = shunt(x).1;
    &&& stk.len() <= 2
    &&& forall|k: int|
        0 <= k < stk.len() ==> #[trigger] stk[k] is Operation && is_operator(stk[k]->Operation_0)
    &&& stk.len() == 2 ==> is_additive(stk[0]->Operation_0) && is_multiplicative(
        stk[1]->Operation_0,
    )
    &&& match eval_stack(out) {
        Err(e) => infix_state(x) == Err::<(Option<(i32, char)>, i32), CalcError>(e),
        Ok(vs) => {
            ||| (stk.len() == 0 && vs.len() == 1 && infix_state(x) == Ok::<
                (Option<(i32, char)>, i32),
                CalcError,
            >((None, vs[0])))
            ||| (stk.len() == 1 && is_additive(stk[0]->Operation_0) && vs.len() == 2
                && infix_state(x) == Ok::<(Option<(i32, char)>, i32), CalcError>(
                (Some((vs[0], stk[0]->Operation_0)), vs[1]),
            ))
            ||| (stk.len() == 1 && is_multiplicative(stk[0]->Operation_0) && vs.len() == 2
                && infix_state(x) == pending(None, combine(stk[0]->Operation_0, vs[0], vs[1])))
            ||| (stk.len() == 2 && is_additive(stk[0]->Operation_0) && is_multiplicative(
                stk[1]->Operation_0,
            ) && vs.len() == 3 && infix_state(x) == pending(
                Some((vs[0], stk[0]->Operation_0)),
                combine(stk[1]->Operation_0, vs[1], vs[2]),
            ))
        },
    }
}

proof fn lemma_eval_push(s: Seq<Stackable>, t: Stackable)
    ensures
        eval_stack(s.push(t)) == eval_step(eval_stack(s), t),
{
    assert(s.push(t).drop_last() =~= s);
}

proof fn lemma_shunt_push(s: Seq<Stackable>, t: Stackable)
    ensures
        shunt(s.push(t)) == shunt_step(shunt(s), t),
{
    assert(s.push(t).drop_last() =~= s);
}

proof fn lemma_shunt_tracks_infix(x: Seq<Stackable>)
    requires
        well_formed_infix(x),
    ensures
        tracks(x),
    decreases x.len(),
{
    reveal_with_fuel(pop_while, 3);
    assert(x[0] is Value);
    if x.len() < 3 {
        let e = Seq::<Stackable>::empty();
        assert(x =~= e.push(x[0]));
        lemma_shunt_push(e, x[0]);
        lemma_eval_push(e, x[0]);
        assert(shunt(e) == (e, e));
    } else {
        let n = x.len();
        let y = x.subrange(0, n - 2);
        assert forall|k: int| 0 <= k < y.len() implies if k % 2 == 0 {
            #[trigger] y[k] is Value
        } else {
            y[k] is Operation && is_operator(y[k]->Operation_0)
        } by {
            assert(y[k] == x[k]);
        }
        lemma_shunt_tracks_infix(y);
        let ot = x[n - 2];
        let vt = x[n - 1];
        assert(ot is Operation && is_operator(ot->Operation_0));
        assert(vt is Value);
        let op = ot->Operation_0;
        assert(x =~= y.push(ot).push(vt));
        lemma_shunt_push(y, ot);
        lemma_shunt_push(y.push(ot), vt);
        let out = shunt(y).0;
        let stk = shunt(y).1;
        let o2 = pop_while(out, stk, prec(op)).0;
        let s2 = pop_while(out, stk, prec(op)).1;
        assert(shunt(x) == (o2.push(vt), s2.push(ot)));
        lemma_eval_push(o2, vt);
        if stk.len() >= 1 {
            lemma_eval_push(out, stk[stk.len() - 1]);
        }
        if stk.len() == 2 {
            lemma_eval_push(out.push(stk[1]), stk[0]);
        }
        if is_multiplicative(op) {
            if stk.len() == 0 {
                assert(o2 == out && s2 == stk);
            } else if stk.len() == 1 && is_additive(stk[0]->Operation_0) {
                assert(o2 == out && s2 == stk);
            } else if stk.len() == 1 {
                assert(o2 == out.push(stk[0]) && s2 =~= Seq::<Stackable>::empty());
            } else {
                assert(o2 == out.push(stk[1]) && s2 =~= stk.drop_last());
            }
        } else {
            if stk.len() == 0 {
                assert(o2 == out && s2 == stk);
            } else if stk.len() == 1 {
                assert(o2 == out.push(stk[0]) && s2 =~= Seq::<Stackable>::empty());
            } else {
                assert(o2 == out.push(stk[1]).push(stk[0]) && s2 =~= Seq::<Stackable>::empty());
            }
        }
    }
}

/// Evaluating the postfix form of a well-formed infix sequence gives what
/// evaluating the infix sequence directly gives, with `*` `/` before `+` `-`
/// and equal operators left to right: the same value, or the same error.
pub proof fn lemma_postfix_evaluates_as_infix(ts: Seq<Stackable>)
    requires
        well_formed_infix(ts),
    ensures
        eval_postfix(to_postfix(ts)) == infix_value(ts),
{
    reveal_with_fuel(drain, 3);
    lemma_shunt_tracks_infix(ts);
    let out = shunt(ts).0;
    let stk = shunt(ts).1;
    if stk.len() >= 1 {
        lemma_eval_push(out, stk[stk.len() - 1]);
    }
    if stk.len() == 2 {
        lemma_eval_push(out.push(stk[1]), stk[0]);
    }
}

/// Conversion and evaluation are functions of the text alone: the same
/// characters always tokenize, convert and evaluate to the same outcome, so
/// repeating a call on the same input repeats its result.
pub proof fn lemma_same_text_same_outcome(a: Seq<char>, b: Seq<char>)
    requires
        a == b,
    ensures
        tokenize(a) == tokenize(b),
        tokenize(a) is Ok ==> to_postfix(tokenize(a)->Ok_0) == to_postfix(tokenize(b)->Ok_0)
            && eval_postfix(tokenize(a)->Ok_0) == eval_postfix(tokenize(b)->Ok_0),
{
}

} // verus!
