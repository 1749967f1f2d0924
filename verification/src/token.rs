//! Tokens and the character classes that tell them apart.
use vstd::prelude::*;

verus! {

/// One lexical unit of an expression.
///
/// A number keeps its text exactly as it was typed; it is only read as a numeric
/// literal when the expression is evaluated.
#[derive(Debug, PartialEq, Eq)]
pub enum Token {
    /// A run of digits and decimal points.
    Number(String),
    /// A single operator character.
    Operator(char),
    /// An opening parenthesis.
    LeftParen,
    /// A closing parenthesis.
    RightParen,
}

/// The mathematical value of a [`Token`]: the same shape, with the text of a
/// number as a sequence of characters.
pub ghost enum TokenView {
    Number(Seq<char>),
    Operator(char),
    LeftParen,
    RightParen,
}

impl View for Token {
    type V = TokenView;

    open spec fn view(&self) -> TokenView {
        match self {
            Token::Number(text) => TokenView::Number(text@),
            Token::Operator(op) => TokenView::Operator(*op),
            Token::LeftParen => TokenView::LeftParen,
            Token::RightParen => TokenView::RightParen,
        }
    }
}

impl DeepView for Token {
    type V = TokenView;

    open spec fn deep_view(&self) -> TokenView {
        self@
    }
}

impl Clone for Token {
    fn clone(&self) -> (copy: Self)
        ensures
            copy == *self,
    {
        match self {
            Token::Number(text) => Token::Number(text.clone()),
            Token::Operator(op) => Token::Operator(*op),
            Token::LeftParen => Token::LeftParen,
            Token::RightParen => Token::RightParen,
        }
    }
}

/// `c` is one of the four binary operator characters.
pub open spec fn spec_is_operator(c: char) -> bool {
    c == '+' || c == '-' || c == '*' || c == '/'
}

/// `c` is a sign: the two operators that may also stand in front of a single operand.
pub open spec fn spec_is_sign(c: char) -> bool {
    c == '+' || c == '-'
}

/// `c` may be part of the text of a number: a decimal digit or the decimal point.
pub open spec fn spec_is_literal_char(c: char) -> bool {
    ('0' <= c && c <= '9') || c == '.'
}

/// The binding strength of a binary operator: 1 for `+` and `-`, 2 for `*` and `/`,
/// and 0 for every other character.
pub open spec fn spec_precedence(op: char) -> u8 {
    if op == '+' || op == '-' {
        1
    } else if op == '*' || op == '/' {
        2
    } else {
        0
    }
}

/// Tells whether `c` is one of `+`, `-`, `*`, `/`.
#[verifier::when_used_as_spec(spec_is_operator)]
pub fn is_operator(c: char) -> (yes: bool)
    ensures
        yes == spec_is_operator(c),
{
    c == '+' || c == '-' || c == '*' || c == '/'
}

/// Tells whether `c` is `+` or `-`.
#[verifier::when_used_as_spec(spec_is_sign)]
pub fn is_sign(c: char) -> (yes: bool)
    ensures
        yes == spec_is_sign(c),
{
    c == '+' || c == '-'
}

/// Tells whether `c` is a decimal digit or the decimal point.
#[verifier::when_used_as_spec(spec_is_literal_char)]
pub fn is_literal_char(c: char) -> (yes: bool)
    ensures
        yes == spec_is_literal_char(c),
{
    ('0' <= c && c <= '9') || c == '.'
}

/// The binding strength of `op` among the binary operators.
#[verifier::when_used_as_spec(spec_precedence)]
pub fn precedence(op: char) -> (level: u8)
    ensures
        level == spec_precedence(op),
{
    if op == '+' || op == '-' {
        1
    } else if op == '*' || op == '/' {
        2
    } else {
        0
    }
}

} // verus!
