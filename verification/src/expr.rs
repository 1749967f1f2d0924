//! The arithmetic that an expression asks for, as a tree.
use vstd::prelude::*;
use crate::literal::number_literal;

verus! {

/// A binary operator of the arithmetic.
#[derive(Clone, Copy, Debug, PartialEq, Eq)]
pub enum BinaryOp {
    /// `a + b`
    Add,
    /// `a - b`
    Subtract,
    /// `a * b`
    Multiply,
    /// `a / b`
    Divide,
}

/// The arithmetic to carry out for an expression.
///
/// The leaves hold the text of numeric literals; every inner node is one
/// operation on the values of the nodes below it.
#[derive(Debug, PartialEq, Eq)]
pub enum Expr {
    /// The number that this numeric literal denotes.
    Number(String),
    /// The negation of the operand.
    Negate(Box<Expr>),
    /// The operator applied to the left and the right operand, in this order.
    Binary(BinaryOp, Box<Expr>, Box<Expr>),
}

/// The mathematical value of an [`Expr`]: the same tree, with the text of a
/// number as a sequence of characters.
pub ghost enum ExprView {
    Number(Seq<char>),
    Negate(Box<ExprView>),
    Binary(BinaryOp, Box<ExprView>, Box<ExprView>),
}

impl ExprView {
    /// Every leaf of the tree is a numeric literal.
    pub open spec fn well_formed(self) -> bool
        decreases self,
    {
        match self {
            ExprView::Number(text) => number_literal(text),
            ExprView::Negate(operand) => operand.well_formed(),
            ExprView::Binary(_, left, right) => left.well_formed() && right.well_formed(),
        }
    }
}

impl Expr {
    /// The tree as a mathematical value; `@` stands for it.
    pub open spec fn tree(&self) -> ExprView
        decreases self,
    {
        match self {
            Expr::Number(text) => ExprView::Number(text@),
            Expr::Negate(operand) => ExprView::Negate(Box::new(operand.tree())),
            Expr::Binary(op, left, right) => ExprView::Binary(
                *op,
                Box::new(left.tree()),
                Box::new(right.tree()),
            ),
        }
    }
}

impl View for Expr {
    type V = ExprView;

    open spec fn view(&self) -> ExprView {
        self.tree()
    }
}

impl DeepView for Expr {
    type V = ExprView;

    open spec fn deep_view(&self) -> ExprView {
        self@
    }
}

impl Clone for Expr {
    fn clone(&self) -> (copy: Self)
        ensures
            copy@ == self@,
        decreases self,
    {
        match self {
            Expr::Number(text) => Expr::Number(text.clone()),
            Expr::Negate(operand) => Expr::Negate(Box::new((&**operand).clone())),
            Expr::Binary(op, left, right) => Expr::Binary(
                *op,
                Box::new((&**left).clone()),
                Box::new((&**right).clone()),
            ),
        }
    }
}

} // verus!
