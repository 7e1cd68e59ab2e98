use vstd::prelude::*;

verus! {

/// Why an expression could not be read or evaluated.
#[derive(Debug, PartialEq, Eq)]
pub enum ExprError {
    /// A character outside digits, `+ - * /` and brackets, with the whole input it stood in.
    InvalidCharacter(char, String),
    /// A run of digits too large for a `u64`.
    NumericOverflow,
    /// A `)` without its `(`, or a `(` left open at the end.
    UnbalancedBrackets,
    /// An operator with fewer than two operands before it.
    StackUnderflow,
    /// Evaluation did not end with exactly one value.
    EmptyExpression,
}

} // verus!
