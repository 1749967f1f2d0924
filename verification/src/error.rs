//! The ways in which a sequence of tokens can fail to be an expression.
use vstd::prelude::*;
use vstd::string::StringExecFns;
use crate::token::{Token, TokenView};

verus! {

broadcast use vstd::string::group_string_axioms;

/// Why an expression has no value.
#[derive(Debug, PartialEq, Eq)]
pub enum EvaluationError {
    /// Two operators stand side by side and the second is no sign. Holds the two.
    ConsecutiveOperators(char, char),
    /// A token that is none of a number, a known operator or a parenthesis.
    UnexpectedToken(Token),
    /// The parentheses do not pair up.
    MismatchedParentheses,
    /// An operator found fewer operands than it takes.
    MissingOperand,
    /// An operator symbol that is none of `+ - * /` reached the arithmetic.
    UnknownOperator(char),
    /// The tokens leave no value, or more than one.
    InvalidExpression,
    /// The text of a number is no numeric literal. Holds the text.
    MalformedNumber(String),
}

/// The mathematical value of an [`EvaluationError`].
pub ghost enum ErrorView {
    ConsecutiveOperators(char, char),
    UnexpectedToken(TokenView),
    MismatchedParentheses,
    MissingOperand,
    UnknownOperator(char),
    InvalidExpression,
    MalformedNumber(Seq<char>),
}

impl View for EvaluationError {
    type V = ErrorView;

    open spec fn view(&self) -> ErrorView {
        match self {
            EvaluationError::ConsecutiveOperators(prev, op) => ErrorView::ConsecutiveOperators(
                *prev,
                *op,
            ),
            EvaluationError::UnexpectedToken(token) => ErrorView::UnexpectedToken(token@),
            EvaluationError::MismatchedParentheses => ErrorView::MismatchedParentheses,
            EvaluationError::MissingOperand => ErrorView::MissingOperand,
            EvaluationError::UnknownOperator(op) => ErrorView::UnknownOperator(*op),
            EvaluationError::InvalidExpression => ErrorView::InvalidExpression,
            EvaluationError::MalformedNumber(text) => ErrorView::MalformedNumber(text@),
        }
    }
}

impl DeepView for EvaluationError {
    type V = ErrorView;

    open spec fn deep_view(&self) -> ErrorView {
        self@
    }
}

impl Clone for EvaluationError {
    fn clone(&self) -> (copy: Self)
        ensures
            copy == *self,
    {
        match self {
            EvaluationError::ConsecutiveOperators(prev, op) => {
                EvaluationError::ConsecutiveOperators(*prev, *op)
            },
            EvaluationError::UnexpectedToken(token) => EvaluationError::UnexpectedToken(
                token.clone(),
            ),
            EvaluationError::MismatchedParentheses => EvaluationError::MismatchedParentheses,
            EvaluationError::MissingOperand => EvaluationError::MissingOperand,
            EvaluationError::UnknownOperator(op) => EvaluationError::UnknownOperator(*op),
            EvaluationError::InvalidExpression => EvaluationError::InvalidExpression,
            EvaluationError::MalformedNumber(text) => EvaluationError::MalformedNumber(
                text.clone(),
            ),
        }
    }
}

impl TokenView {
    /// The token as it is written in an expression.
    pub open spec fn text(self) -> Seq<char> {
        match self {
            TokenView::Number(text) => text,
            TokenView::Operator(op) => seq![op],
            TokenView::LeftParen => seq!['('],
            TokenView::RightParen => seq![')'],
        }
    }
}

impl ErrorView {
    /// The line shown to the user for this error.
    pub open spec fn message(self) -> Seq<char> {
        match self {
            ErrorView::ConsecutiveOperators(prev, op) => "İki operatör arka arkaya: "@ + seq![
                prev,
                ' ',
                op,
            ],
            ErrorView::UnexpectedToken(token) => "Beklenmeyen token: "@ + token.text(),
            ErrorView::MismatchedParentheses => "Parantez uyumsuzluğu!"@,
            ErrorView::MissingOperand => "Eksik operand!"@,
            ErrorView::UnknownOperator(op) => "Bilinmeyen operatör: "@ + seq![op],
            ErrorView::InvalidExpression => "Geçersiz ifade veya eksik operand!"@,
            ErrorView::MalformedNumber(text) => "Geçersiz sayı: "@ + text,
        }
    }
}

impl EvaluationError {
    /// The line to show to the user in place of a result.
    pub fn message(&self) -> (line: String)
        ensures
            line@ == self@.message(),
    {
        match self {
            EvaluationError::ConsecutiveOperators(prev, op) => {
                let mut line = "İki operatör arka arkaya: ".to_string();
                line.push(*prev);
                line.push(' ');
                line.push(*op);
                assert(line@ =~= self@.message());
                line
            },
            EvaluationError::UnexpectedToken(token) => {
                let mut line = "Beklenmeyen token: ".to_string();
                match token {
                    Token::Number(text) => line.append(text.as_str()),
                    Token::Operator(op) => line.push(*op),
                    Token::LeftParen => line.push('('),
                    Token::RightParen => line.push(')'),
                }
                assert(line@ =~= self@.message());
                line
            },
            EvaluationError::MismatchedParentheses => "Parantez uyumsuzluğu!".to_string(),
            EvaluationError::MissingOperand => "Eksik operand!".to_string(),
            EvaluationError::UnknownOperator(op) => {
                let mut line = "Bilinmeyen operatör: ".to_string();
                line.push(*op);
                assert(line@ =~= self@.message());
                line
            },
            EvaluationError::InvalidExpression => "Geçersiz ifade veya eksik operand!".to_string(),
            EvaluationError::MalformedNumber(text) => {
                let mut line = "Geçersiz sayı: ".to_string();
                line.append(text.as_str());
                line
            },
        }
    }
}

} // verus!
