//! Running an expression in postfix order, and the evaluator as a whole.
use vstd::prelude::*;
use crate::error::{ErrorView, EvaluationError};
use crate::expr::{BinaryOp, Expr, ExprView};
use crate::literal::{is_number_literal, number_literal};
use crate::outcome;
use crate::postfix::{postfix_of, to_postfix, Operation, PostfixItem, PostfixView};
use crate::properties::{evaluation_knows_its_operators, lemma_value_well_formed};
use crate::token::{Token, TokenView};

verus! {

/// The binary operator that `symbol` stands for, if it stands for one.
pub open spec fn spec_binary_op(symbol: char) -> Option<BinaryOp> {
    if symbol == '+' {
        Some(BinaryOp::Add)
    } else if symbol == '-' {
        Some(BinaryOp::Subtract)
    } else if symbol == '*' {
        Some(BinaryOp::Multiply)
    } else if symbol == '/' {
        Some(BinaryOp::Divide)
    } else {
        None
    }
}

/// The binary operator that `symbol` stands for, if it stands for one.
#[verifier::when_used_as_spec(spec_binary_op)]
pub fn binary_op(symbol: char) -> (op: Option<BinaryOp>)
    ensures
        op == spec_binary_op(symbol),
{
    if symbol == '+' {
        Some(BinaryOp::Add)
    } else if symbol == '-' {
        Some(BinaryOp::Subtract)
    } else if symbol == '*' {
        Some(BinaryOp::Multiply)
    } else if symbol == '/' {
        Some(BinaryOp::Divide)
    } else {
        None
    }
}

/// The value stack after `item`, or the error that `item` raises.
///
/// A number must be a numeric literal and is pushed. A sign takes one value: `-`
/// puts its negation back, `+` the value itself. A binary operator takes the value
/// on top as its right operand and the one below as its left operand, and puts
/// the result back.
pub open spec fn apply(values: Seq<ExprView>, item: PostfixView) -> Result<
    Seq<ExprView>,
    ErrorView,
> {
    match item {
        PostfixView::Number(text) => if number_literal(text) {
            Ok(values.push(ExprView::Number(text)))
        } else {
            Err(ErrorView::MalformedNumber(text))
        },
        PostfixView::Apply(Operation::Negate) => if values.len() < 1 {
            Err(ErrorView::MissingOperand)
        } else {
            Ok(values.drop_last().push(ExprView::Negate(Box::new(values.last()))))
        },
        PostfixView::Apply(Operation::Keep) => if values.len() < 1 {
            Err(ErrorView::MissingOperand)
        } else {
            Ok(values)
        },
        PostfixView::Apply(Operation::Binary(symbol)) => match binary_op(symbol) {
            None => Err(ErrorView::UnknownOperator(symbol)),
            Some(op) => if values.len() < 2 {
                Err(ErrorView::MissingOperand)
            } else {
                let right = values[values.len() - 1];
                let left = values[values.len() - 2];
                Ok(
                    values.take(values.len() - 2).push(
                        ExprView::Binary(op, Box::new(left), Box::new(right)),
                    ),
                )
            },
        },
    }
}

/// The value stack after the first `n` items of `queue`, or the first error among
/// them.
pub open spec fn run(queue: Seq<PostfixView>, n: nat) -> Result<Seq<ExprView>, ErrorView>
    decreases n,
{
    if n == 0 {
        Ok(Seq::empty())
    } else {
        match run(queue, (n - 1) as nat) {
            Ok(values) => apply(values, queue[n - 1]),
            Err(error) => Err(error),
        }
    }
}

/// The arithmetic that `queue` asks for: the one value that is left when every
/// item has been applied.
pub open spec fn value_of(queue: Seq<PostfixView>) -> Result<ExprView, ErrorView> {
    match run(queue, queue.len()) {
        Ok(values) => if values.len() == 1 {
            Ok(values[0])
        } else {
            Err(ErrorView::InvalidExpression)
        },
        Err(error) => Err(error),
    }
}

/// The arithmetic that `tokens` ask for, or the reason why they ask for none.
pub open spec fn evaluation(tokens: Seq<TokenView>) -> Result<ExprView, ErrorView> {
    match postfix_of(tokens) {
        Ok(queue) => value_of(queue),
        Err(error) => Err(error),
    }
}

/// Once an item has failed, the run stays failed: the first error is the one
/// that counts.
pub proof fn lemma_run_fails(queue: Seq<PostfixView>, n: nat)
    requires
        n <= queue.len(),
        run(queue, n) is Err,
    ensures
        run(queue, queue.len()) == run(queue, n),
    decreases queue.len() - n,
{
    if n < queue.len() {
        lemma_run_fails(queue, n + 1);
    }
}

fn push_value(values: &mut Vec<Expr>, value: Expr)
    ensures
        final(values).deep_view() == old(values).deep_view().push(value@),
{
    values.push(value);
    assert(values.deep_view() =~= old(values).deep_view().push(value@));
}

fn pop_value(values: &mut Vec<Expr>) -> (value: Expr)
    requires
        old(values).len() > 0,
    ensures
        value@ == old(values).deep_view().last(),
        final(values).deep_view() == old(values).deep_view().drop_last(),
        final(values).len() == old(values).len() - 1,
{
    let value = values.pop().unwrap();
    assert(values.deep_view() =~= old(values).deep_view().drop_last());
    value
}

/// Runs an expression in postfix order on a stack of values.
///
/// The result is the tree of the arithmetic, not a number: the leaves are the
/// numeric literals, checked against the grammar, and each node is one operation.
/// The first item that cannot be applied decides the error; when all have been
/// applied, exactly one value must be left.
pub fn evaluate_postfix(queue: &[PostfixItem]) -> (result: Result<Expr, EvaluationError>)
    ensures
        outcome(result) == value_of(queue.deep_view()),
        result matches Ok(expr) ==> expr@.well_formed(),
{
    let ghost all = queue.deep_view();
    proof {
        lemma_value_well_formed(all);
    }
    let mut values: Vec<Expr> = Vec::new();
    assert(values.deep_view() =~= Seq::<ExprView>::empty());
    let mut i: usize = 0;
    while i < queue.len()
        invariant
            i <= queue.len(),
            all == queue.deep_view(),
            run(all, i as nat) == Ok::<Seq<ExprView>, ErrorView>(values.deep_view()),
        decreases queue.len() - i,
    {
        let ghost before = values.deep_view();
        assert(all[i as int] == queue[i as int]@);
        assert(before.len() == values.len());
        match &queue[i] {
            PostfixItem::Number(text) => {
                if !is_number_literal(text.as_str()) {
                    proof {
                        lemma_run_fails(all, (i + 1) as nat);
                    }
                    return Err(EvaluationError::MalformedNumber(text.clone()));
                }
                push_value(&mut values, Expr::Number(text.clone()));
            },
            PostfixItem::Apply(Operation::Negate) => {
                if values.len() < 1 {
                    proof {
                        lemma_run_fails(all, (i + 1) as nat);
                    }
                    return Err(EvaluationError::MissingOperand);
                }
                let operand = pop_value(&mut values);
                push_value(&mut values, Expr::Negate(Box::new(operand)));
            },
            PostfixItem::Apply(Operation::Keep) => {
                if values.len() < 1 {
                    proof {
                        lemma_run_fails(all, (i + 1) as nat);
                    }
                    return Err(EvaluationError::MissingOperand);
                }
            },
            PostfixItem::Apply(Operation::Binary(symbol)) => {
                match binary_op(*symbol) {
                    None => {
                        proof {
                            lemma_run_fails(all, (i + 1) as nat);
                        }
                        return Err(EvaluationError::UnknownOperator(*symbol));
                    },
                    Some(op) => {
                        if values.len() < 2 {
                            proof {
                                lemma_run_fails(all, (i + 1) as nat);
                            }
                            return Err(EvaluationError::MissingOperand);
                        }
                        let right = pop_value(&mut values);
                        let left = pop_value(&mut values);
                        assert(values.deep_view() =~= before.take(before.len() - 2));
                        push_value(&mut values, Expr::Binary(op, Box::new(left), Box::new(right)));
                    },
                }
            },
        }
        assert(apply(before, all[i as int]) == Ok::<Seq<ExprView>, ErrorView>(
            values.deep_view(),
        ));
        i += 1;
    }
    if values.len() != 1 {
        assert(values.deep_view().len() == values.len());
        return Err(EvaluationError::InvalidExpression);
    }
    let value = pop_value(&mut values);
    Ok(value)
}

/// Evaluates `tokens`: brings them into postfix order and runs that order.
///
/// The outcome is a function of the tokens alone. It is `Ok` with the tree of the
/// arithmetic exactly when the tokens have a postfix order and that order leaves
/// one value; every other sequence of tokens gets the first error on the way.
pub fn evaluate(tokens: &[Token]) -> (result: Result<Expr, EvaluationError>)
    ensures
        outcome(result) == evaluation(tokens.deep_view()),
        result matches Ok(expr) ==> expr@.well_formed(),
        !(result matches Err(EvaluationError::UnknownOperator(_))),
{
    proof {
        evaluation_knows_its_operators(tokens.deep_view());
    }
    match to_postfix(tokens) {
        Ok(queue) => {
            let items = queue.as_slice();
            assert(items.deep_view() =~= queue.deep_view());
            evaluate_postfix(items)
        },
        Err(error) => Err(error),
    }
}

} // verus!
