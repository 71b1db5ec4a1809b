//! Evaluation of postfix token sequences over `i32`.
use vstd::prelude::*;

use crate::converter::{is_malformed, is_operator, Converter, Stackable};
use crate::error::CalcError;
use crate::lexer::tokenize;

verus! {

/// Division truncating toward zero, as `i32`'s `/` does it.
pub open spec fn div_trunc(a: int, b: int) -> int {
    if a == 0 {
        0
    } else if a > 0 && b > 0 {
        a / b
    } else if a < 0 && b < 0 {
        (-a) / (-b)
    } else if a < 0 {
        -((-a) / b)
    } else {
        -(a / (-b))
    }
}

/// `a op b` over the integers, with truncating division.
pub open spec fn arith(op: char, a: int, b: int) -> int {
    if op == '+' {
        a + b
    } else if op == '-' {
        a - b
    } else if op == '*' {
        a * b
    } else {
        div_trunc(a, b)
    }
}

/// `a op b` as an `i32`, or why it has no such value.
pub open spec fn combine(op: char, a: i32, b: i32) -> Result<i32, CalcError> {
    if !is_operator(op) {
        Err(CalcError::UnexpectedOperator(op))
    } else if op == '/' && b == 0 {
        Err(CalcError::DivisionByZero)
    } else {
        let v = arith(op, a as int, b as int);
        if i32::MIN <= v && v <= i32::MAX {
            Ok(v as i32)
        } else {
            Err(CalcError::Overflow)
        }
    }
}

/// One step of postfix evaluation on the value stack: an operand is pushed;
/// an operator pops the right operand, then the left one, and pushes the
/// result. The first error stays.
pub open spec fn eval_step(st: Result<Seq<i32>, CalcError>, t: Stackable) -> Result<
    Seq<i32>,
    CalcError,
> {
    match st {
        Err(e) => Err(e),
        Ok(vs) => match t {
            Stackable::Value(n) => Ok(vs.push(n)),
            Stackable::Operation(op) => {
                if vs.len() < 2 {
                    Err(CalcError::StackUnderflow)
                } else {
                    match combine(op, vs[vs.len() - 2], vs[vs.len() - 1]) {
                        Ok(v) => Ok(vs.drop_last().drop_last().push(v)),
                        Err(e) => Err(e),
                    }
                }
            },
        },
    }
}

/// The value stack after evaluating `ts` from an empty stack.
pub open spec fn eval_stack(ts: Seq<Stackable>) -> Result<Seq<i32>, CalcError>
    decreases ts.len(),
{
    if ts.len() == 0 {
        Ok(seq![])
    } else {
        eval_step(eval_stack(ts.drop_last()), ts.last())
    }
}

/// The value of a postfix token sequence: the one value left on the stack.
pub open spec fn eval_postfix(ts: Seq<Stackable>) -> Result<i32, CalcError> {
    match eval_stack(ts) {
        Err(e) => Err(e),
        Ok(vs) => if vs.len() == 1 {
            Ok(vs[0])
        } else {
            Err(CalcError::TrailingOrMissingResult(vs.len() as usize))
        },
    }
}

/// An error in evaluating a prefix of `ts` is the error of all of `ts`.
pub proof fn lemma_eval_error_sticks(ts: Seq<Stackable>, i: int)
    requires
        0 <= i <= ts.len(),
        eval_stack(ts.take(i)) is Err,
    ensures
        eval_stack(ts) == eval_stack(ts.take(i)),
    decreases ts.len() - i,
{
    if i == ts.len() {
        assert(ts.take(i) =~= ts);
    } else {
        assert(ts.take(i + 1).drop_last() =~= ts.take(i));
        lemma_eval_error_sticks(ts, i + 1);
    }
}

/// Computes `a op b` as `combine` does.
pub fn apply(op: char, a: i32, b: i32) -> (r: Result<i32, CalcError>)
    ensures
        r == combine(op, a, b),
{
    let v = match op {
        '+' => a.checked_add(b),
        '-' => a.checked_sub(b),
        '*' => a.checked_mul(b),
        '/' => {
            if b == 0 {
                return Err(CalcError::DivisionByZero);
            }
            a.checked_div(b)
        },
        _ => return Err(CalcError::UnexpectedOperator(op)),
    };
    match v {
        Some(v) => Ok(v),
        None => Err(CalcError::Overflow),
    }
}

/// Evaluates a postfix token sequence with a value stack.
pub fn evaluate(tokens: &Vec<Stackable>) -> (r: Result<i32, CalcError>)
    ensures
        r == eval_postfix(tokens@),
{
    let mut stack: Vec<i32> = Vec::new();
    for i in 0..tokens.len()
        invariant
            eval_stack(tokens@.take(i as int)) == Ok::<Seq<i32>, CalcError>(stack@),
    {
        assert(tokens@.take(i + 1).drop_last() =~= tokens@.take(i as int));
        match tokens[i] {
            Stackable::Value(num) => stack.push(num),
            Stackable::Operation(operation) => {
                if stack.len() < 2 {
                    proof {
                        lemma_eval_error_sticks(tokens@, i + 1);
                    }
                    return Err(CalcError::StackUnderflow);
                }
                let value_one = stack.pop().unwrap();
                let value_two = stack.pop().unwrap();
                match apply(operation, value_two, value_one) {
                    Ok(v) => stack.push(v),
                    Err(e) => {
                        proof {
                            lemma_eval_error_sticks(tokens@, i + 1);
                        }
                        return Err(e);
                    },
                }
            },
        }
    }
    assert(tokens@.take(tokens.len() as int) =~= tokens@);
    if stack.len() == 1 {
        Ok(stack[0])
    } else {
        Err(CalcError::TrailingOrMissingResult(stack.len()))
    }
}

/// A postfix expression read from text, ready to be evaluated.
pub struct Processor {
    values: Vec<Stackable>,
}

impl View for Processor {
    type V = Seq<Stackable>;

    /// The tokens to evaluate.
    closed spec fn view(&self) -> Seq<Stackable> {
        self.values@
    }
}

impl Processor {
    /// Tokenizes `raw_value`, which is taken to be in postfix order.
    pub fn new(raw_value: String) -> (r: Result<Processor, CalcError>)
        ensures
            match tokenize(raw_value@) {
                Ok(ts) => r is Ok && r->Ok_0@ == ts,
                Err(f) => r is Err && is_malformed(r->Err_0, f),
            },
    {
        match Converter::parse(raw_value.as_str()) {
            Ok(values) => Ok(Processor { values }),
            Err(e) => Err(e),
        }
    }

    /// Evaluates the tokens; each call starts from an empty value stack and
    /// leaves the tokens as they were.
    pub fn calculate(&mut self) -> (r: Result<i32, CalcError>)
        ensures
            final(self)@ == old(self)@,
            r == eval_postfix(old(self)@),
    {
        evaluate(&self.values)
    }
}

} // verus!
