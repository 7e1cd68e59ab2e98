//! Reads arithmetic expressions over non-negative integers with `+ - * /` and brackets,
//! puts them in postfix order with the Shunting-Yard algorithm, and turns the postfix
//! sequence into an expression tree ready for evaluation.
//!
//! - [`token`]: tokens and operator precedence.
//! - [`lexer`]: text to tokens, with implied multiplication and the `-(` rewrite.
//! - [`postfix`]: infix tokens to postfix tokens.
//! - [`term`]: postfix tokens to a tree, with the operand-count checks of evaluation.
//! - [`expression`]: the `Expression` type that ties these together.
use vstd::prelude::*;

pub mod error;
pub mod expression;
pub mod lexer;
pub mod postfix;
pub mod term;
pub mod token;

verus! {

} // verus!
