//! A tokenizer and evaluator for textual arithmetic expressions.
//!
//! [`tokenize`] splits a line of text into numbers, operators and parentheses.
//! [`evaluate`] brings the tokens into postfix order, by operator precedence and
//! with signs in front of operands, and runs that order on a stack. What comes out
//! is the arithmetic as a tree, [`Expr`], or the reason why the line is no
//! expression, [`EvaluationError`].
//!
//! The library decides everything but the numbers themselves: which operation
//! works on which operands, and that every leaf is a numeric literal. Folding the
//! tree into a floating-point number is left to the caller.
//!
//! Every function is verified against a mathematical model of its result; the
//! modules [`properties`] and [`notation`] hold what is proved of all inputs.
use vstd::prelude::*;

pub mod error;
pub mod evaluate;
pub mod expr;
pub mod literal;
pub mod notation;
pub mod postfix;
pub mod properties;
pub mod text;
pub mod token;
pub mod tokenizer;

pub use error::{ErrorView, EvaluationError};
pub use evaluate::{evaluate, evaluate_postfix};
pub use expr::{BinaryOp, Expr, ExprView};
pub use literal::is_number_literal;
pub use postfix::{to_postfix, Operation, PostfixItem, PostfixView};
pub use token::{is_literal_char, is_operator, is_sign, precedence, Token, TokenView};
pub use tokenizer::tokenize;

verus! {

/// A result as a mathematical value: the view of what it holds, on either side.
pub open spec fn outcome<T: DeepView, E: DeepView>(result: Result<T, E>) -> Result<T::V, E::V> {
    match result {
        Ok(value) => Ok(value.deep_view()),
        Err(error) => Err(error.deep_view()),
    }
}

} // verus!
