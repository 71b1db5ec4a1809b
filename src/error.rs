//! Errors of tokenizing and evaluating.
use vstd::prelude::*;

verus! {

/// The ways in which conversion or evaluation can fail.
#[derive(Debug, Clone, PartialEq, Eq)]
pub enum CalcError {
    /// A fragment of the input is neither an operator nor a base-10 `i32`.
    MalformedOperand(String),
    /// An operator found fewer than two values on the value stack.
    StackUnderflow,
    /// A division whose right operand is zero.
    DivisionByZero,
    /// An operator token whose symbol is not one of `+ - * /`.
    UnexpectedOperator(char),
    /// After the last token, the value stack did not hold exactly one value;
    /// carries the number of values it held.
    TrailingOrMissingResult(usize),
    /// An intermediate or final result does not fit in an `i32`.
    Overflow,
}

} // verus!
