//! What holds of every evaluation: which errors each part can raise, that the
//! operators that reach the arithmetic are known, when parentheses are at fault,
//! and that an outcome is fixed by the tokens.
use vstd::prelude::*;
use crate::error::{ErrorView, EvaluationError};
use crate::evaluate::{apply, evaluation, run, value_of};
use crate::expr::{Expr, ExprView};
use crate::outcome;
use crate::postfix::{
    lemma_scan_fails, postfix_of, scan, token_before, Operation, PostfixView, StackEntry,
    YardView,
};
use crate::token::{is_operator, is_sign, TokenView};
use crate::tokenizer::{all_well_lexed, lemma_tokens_well_lexed, tokens_of, well_lexed};

verus! {

/// An error of the ordering of tokens.
pub open spec fn ordering_error(error: ErrorView) -> bool {
    error is UnexpectedToken || error is ConsecutiveOperators || error is MismatchedParentheses
}

/// An error of the run of a postfix order.
pub open spec fn running_error(error: ErrorView) -> bool {
    error is MalformedNumber || error is MissingOperand || error is UnknownOperator
        || error is InvalidExpression
}

/// The symbol of a binary operation is one of the four operators.
pub open spec fn known_operation(operation: Operation) -> bool {
    operation matches Operation::Binary(symbol) ==> is_operator(symbol)
}

/// Every binary operation of `queue` has a known symbol.
pub open spec fn known_queue(queue: Seq<PostfixView>) -> bool {
    forall|i: int|
        0 <= i < queue.len() ==> (#[trigger] queue[i] matches PostfixView::Apply(operation)
            ==> known_operation(operation))
}

/// Every binary operation that waits on `stack` has a known symbol.
pub open spec fn known_stack(stack: Seq<StackEntry>) -> bool {
    forall|i: int|
        0 <= i < stack.len() ==> (#[trigger] stack[i] matches StackEntry::Pending(operation)
            ==> known_operation(operation))
}

/// Every binary operation in `yard` has a known symbol.
pub open spec fn known_yard(yard: YardView) -> bool {
    known_stack(yard.stack) && known_queue(yard.output)
}

proof fn lemma_yield_to_known(yard: YardView, op: char)
    requires
        known_yard(yard),
    ensures
        known_yard(yard.yield_to(op)),
    decreases yard.stack.len(),
{
    if yard.yield_to(op) != yard {
        let next = yard.pop().emit(PostfixView::Apply(yard.stack.last()->Pending_0));
        assert(known_stack(yard.stack) && known_queue(yard.output));
        assert(yard.stack[yard.stack.len() - 1] == yard.stack.last());
        lemma_yield_to_known(next, op);
    }
}

proof fn lemma_close_group_known(yard: YardView)
    requires
        known_yard(yard),
    ensures
        known_yard(yard.close_group()),
    decreases yard.stack.len(),
{
    if yard.stack.len() > 0 {
        assert(yard.stack[yard.stack.len() - 1] == yard.stack.last());
        match yard.stack.last() {
            StackEntry::LeftParen => {},
            StackEntry::Pending(operation) => {
                lemma_close_group_known(yard.pop().emit(PostfixView::Apply(operation)));
            },
        }
    }
}

proof fn lemma_drain_known(yard: YardView)
    requires
        known_yard(yard),
    ensures
        yard.drain() matches Ok(queue) ==> known_queue(queue),
        yard.drain() matches Err(error) ==> error == ErrorView::MismatchedParentheses,
    decreases yard.stack.len(),
{
    if yard.stack.len() > 0 {
        assert(yard.stack[yard.stack.len() - 1] == yard.stack.last());
        match yard.stack.last() {
            StackEntry::LeftParen => {},
            StackEntry::Pending(operation) => {
                lemma_drain_known(yard.pop().emit(PostfixView::Apply(operation)));
            },
        }
    }
}

proof fn lemma_accept_known(yard: YardView, prev: Option<TokenView>, token: TokenView)
    requires
        known_yard(yard),
    ensures
        yard.accept(prev, token) matches Ok(next) ==> known_yard(next),
        yard.accept(prev, token) matches Err(error) ==> (error is ConsecutiveOperators || (error
            == ErrorView::UnexpectedToken(token) && !well_lexed(token))),
{
    match token {
        TokenView::Operator(op) => {
            lemma_yield_to_known(yard, op);
        },
        TokenView::RightParen => {
            lemma_close_group_known(yard);
        },
        _ => {},
    }
}

/// What the first `n` tokens leave behind holds known operators only, and an
/// error among them is one of two kinds: an operator side by side with another,
/// or a token of `tokens` that is not well lexed.
pub proof fn lemma_scan_known(tokens: Seq<TokenView>, n: nat)
    requires
        n <= tokens.len(),
    ensures
        scan(tokens, n) matches Ok(yard) ==> known_yard(yard),
        scan(tokens, n) matches Err(error) ==> (error is ConsecutiveOperators || (
        error is UnexpectedToken && !all_well_lexed(tokens))),
    decreases n,
{
    if n > 0 {
        lemma_scan_known(tokens, (n - 1) as nat);
        match scan(tokens, (n - 1) as nat) {
            Ok(yard) => {
                lemma_accept_known(yard, token_before(tokens, n - 1), tokens[n - 1]);
            },
            Err(_) => {},
        }
    }
}

/// The ordering of tokens raises errors of ordering only, an unexpected token
/// only where a token is not well lexed, and hands on known operators only.
pub proof fn lemma_postfix_outcomes(tokens: Seq<TokenView>)
    ensures
        postfix_of(tokens) matches Ok(queue) ==> known_queue(queue),
        postfix_of(tokens) matches Err(error) ==> ordering_error(error),
        postfix_of(tokens) matches Err(error) ==> (error is UnexpectedToken ==> !all_well_lexed(
            tokens,
        )),
{
    lemma_scan_known(tokens, tokens.len());
    match scan(tokens, tokens.len()) {
        Ok(yard) => {
            lemma_drain_known(yard);
        },
        Err(_) => {},
    }
}

proof fn lemma_run_outcomes(queue: Seq<PostfixView>, n: nat)
    requires
        n <= queue.len(),
    ensures
        run(queue, n) matches Err(error) ==> running_error(error) && !(error is InvalidExpression),
        run(queue, n) matches Err(error) ==> (error is UnknownOperator ==> !known_queue(queue)),
    decreases n,
{
    if n > 0 {
        lemma_run_outcomes(queue, (n - 1) as nat);
    }
}

/// The run of a postfix order raises errors of running only, and an unknown
/// operator only where the order holds one.
pub proof fn lemma_value_outcomes(queue: Seq<PostfixView>)
    ensures
        value_of(queue) matches Err(error) ==> running_error(error),
        value_of(queue) matches Err(error) ==> (error is UnknownOperator ==> !known_queue(queue)),
{
    lemma_run_outcomes(queue, queue.len());
}

/// Every value of the stack has numeric literals at its leaves.
pub open spec fn all_well_formed(values: Seq<ExprView>) -> bool {
    forall|i: int| 0 <= i < values.len() ==> (#[trigger] values[i]).well_formed()
}

proof fn lemma_run_well_formed(queue: Seq<PostfixView>, n: nat)
    requires
        n <= queue.len(),
    ensures
        run(queue, n) matches Ok(values) ==> all_well_formed(values),
    decreases n,
{
    if n > 0 {
        lemma_run_well_formed(queue, (n - 1) as nat);
        match run(queue, (n - 1) as nat) {
            Ok(before) => {
                match apply(before, queue[n - 1]) {
                    Ok(values) => {
                        assert forall|i: int| 0 <= i < values.len() implies (
                        #[trigger] values[i]).well_formed() by {
                            if i < values.len() - 1 {
                                assert(values[i] == before[i]);
                            } else if before.len() >= 2 {
                                assert(before[before.len() - 1].well_formed());
                                assert(before[before.len() - 2].well_formed());
                            } else if before.len() >= 1 {
                                assert(before[before.len() - 1].well_formed());
                            }
                        }
                    },
                    Err(_) => {},
                }
            },
            Err(_) => {},
        }
    }
}

/// The arithmetic that a postfix order asks for has numeric literals at all its
/// leaves: each can be read as a number.
pub proof fn lemma_value_well_formed(queue: Seq<PostfixView>)
    ensures
        value_of(queue) matches Ok(expr) ==> expr.well_formed(),
{
    lemma_run_well_formed(queue, queue.len());
    match run(queue, queue.len()) {
        Ok(values) => {
            if values.len() == 1 {
                assert(values[0].well_formed());
            }
        },
        Err(_) => {},
    }
}

/// No sequence of tokens makes the evaluation fail with an unknown operator: the
/// ordering lets only the four operators through.
pub proof fn evaluation_knows_its_operators(tokens: Seq<TokenView>)
    ensures
        !(evaluation(tokens) matches Err(error) && error is UnknownOperator),
{
    lemma_postfix_outcomes(tokens);
    match postfix_of(tokens) {
        Ok(queue) => {
            lemma_value_outcomes(queue);
        },
        Err(_) => {},
    }
}

/// The tokens of a text are never unexpected, and none of its operators unknown:
/// on what the tokenizer produces these two errors do not occur.
pub proof fn evaluation_of_text_expects_its_tokens(text: Seq<char>)
    ensures
        !(evaluation(tokens_of(text)) matches Err(error) && (error is UnexpectedToken
            || error is UnknownOperator)),
{
    let tokens = tokens_of(text);
    lemma_tokens_well_lexed(text);
    lemma_postfix_outcomes(tokens);
    match postfix_of(tokens) {
        Ok(queue) => {
            lemma_value_outcomes(queue);
        },
        Err(_) => {},
    }
}

/// Two operators side by side, of which the second is no sign, are an error
/// wherever they stand, unless a token before them has failed already.
pub proof fn second_operator_must_be_a_sign(
    tokens: Seq<TokenView>,
    i: int,
    first: char,
    second: char,
)
    requires
        0 <= i,
        i + 1 < tokens.len(),
        tokens[i] == TokenView::Operator(first),
        tokens[i + 1] == TokenView::Operator(second),
        is_operator(first),
        is_operator(second),
        !is_sign(second),
        scan(tokens, (i + 1) as nat) is Ok,
    ensures
        evaluation(tokens) == Err::<ExprView, ErrorView>(
            ErrorView::ConsecutiveOperators(first, second),
        ),
{
    assert(token_before(tokens, i + 1) == Some(tokens[i]));
    assert(scan(tokens, (i + 2) as nat) == Err::<YardView, ErrorView>(
        ErrorView::ConsecutiveOperators(first, second),
    ));
    lemma_scan_fails(tokens, (i + 2) as nat);
}

/// By how much a token changes the number of open parentheses.
pub open spec fn paren_step(token: TokenView) -> int {
    match token {
        TokenView::LeftParen => 1,
        TokenView::RightParen => -1,
        _ => 0,
    }
}

/// The opening parentheses among the first `n` tokens less the closing ones.
pub open spec fn paren_depth(tokens: Seq<TokenView>, n: nat) -> int
    decreases n,
{
    if n == 0 {
        0
    } else {
        paren_depth(tokens, (n - 1) as nat) + paren_step(tokens[n - 1])
    }
}

/// The parentheses of `tokens` pair up: no closing one comes before its opening
/// one, and none is left open at the end.
pub open spec fn balanced(tokens: Seq<TokenView>) -> bool {
    &&& paren_depth(tokens, tokens.len()) == 0
    &&& forall|n: nat| n <= tokens.len() ==> #[trigger] paren_depth(tokens, n) >= 0
}

/// The number of opening parentheses on `stack`.
pub open spec fn open_parens(stack: Seq<StackEntry>) -> nat
    decreases stack.len(),
{
    if stack.len() == 0 {
        0
    } else if stack.last() is LeftParen {
        open_parens(stack.drop_last()) + 1
    } else {
        open_parens(stack.drop_last())
    }
}

/// `yard` has kept count of the parentheses of the first `n` tokens: the flag is
/// up exactly if a closing one came too early, and until then the stack holds as
/// many opening ones as are open.
pub open spec fn counts_parens(yard: YardView, tokens: Seq<TokenView>, n: nat) -> bool {
    &&& yard.unmatched <==> exists|k: nat| k <= n && #[trigger] paren_depth(tokens, k) < 0
    &&& !yard.unmatched ==> open_parens(yard.stack) == paren_depth(tokens, n)
}

proof fn lemma_open_parens_push(stack: Seq<StackEntry>, entry: StackEntry)
    ensures
        open_parens(stack.push(entry)) == open_parens(stack) + if entry is LeftParen {
            1nat
        } else {
            0nat
        },
{
    assert(stack.push(entry).drop_last() =~= stack);
}

proof fn lemma_yield_to_parens(yard: YardView, op: char)
    ensures
        open_parens(yard.yield_to(op).stack) == open_parens(yard.stack),
        yard.yield_to(op).unmatched == yard.unmatched,
    decreases yard.stack.len(),
{
    if yard.yield_to(op) != yard {
        lemma_yield_to_parens(
            yard.pop().emit(PostfixView::Apply(yard.stack.last()->Pending_0)),
            op,
        );
    }
}

proof fn lemma_close_group_parens(yard: YardView)
    ensures
        open_parens(yard.stack) > 0 ==> open_parens(yard.close_group().stack) == open_parens(
            yard.stack,
        ) - 1 && yard.close_group().unmatched == yard.unmatched,
        open_parens(yard.stack) == 0 ==> yard.close_group().unmatched,
        yard.unmatched ==> yard.close_group().unmatched,
    decreases yard.stack.len(),
{
    if yard.stack.len() > 0 {
        match yard.stack.last() {
            StackEntry::LeftParen => {},
            StackEntry::Pending(operation) => {
                lemma_close_group_parens(yard.pop().emit(PostfixView::Apply(operation)));
            },
        }
    }
}

proof fn lemma_drain_parens(yard: YardView)
    ensures
        yard.drain() is Ok <==> open_parens(yard.stack) == 0,
    decreases yard.stack.len(),
{
    if yard.stack.len() > 0 {
        match yard.stack.last() {
            StackEntry::LeftParen => {},
            StackEntry::Pending(operation) => {
                lemma_drain_parens(yard.pop().emit(PostfixView::Apply(operation)));
            },
        }
    }
}

proof fn lemma_accept_parens(
    yard: YardView,
    tokens: Seq<TokenView>,
    n: nat,
)
    requires
        n < tokens.len(),
        counts_parens(yard, tokens, n),
    ensures
        yard.accept(token_before(tokens, n as int), tokens[n as int]) matches Ok(next)
            ==> counts_parens(next, tokens, n + 1),
{
    let token = tokens[n as int];
    let prev = token_before(tokens, n as int);
    if yard.accept(prev, token) is Ok {
        let next = yard.accept(prev, token)->Ok_0;
        assert(paren_depth(tokens, n + 1) == paren_depth(tokens, n) + paren_step(token));
        match token {
            TokenView::Number(_) => {},
            TokenView::Operator(op) => {
                lemma_yield_to_parens(yard, op);
                lemma_open_parens_push(yard.stack, next.stack.last());
                lemma_open_parens_push(yard.yield_to(op).stack, next.stack.last());
            },
            TokenView::LeftParen => {
                lemma_open_parens_push(yard.stack, StackEntry::LeftParen);
            },
            TokenView::RightParen => {
                lemma_close_group_parens(yard);
            },
        }
        if yard.unmatched {
            let k = choose|k: nat| k <= n && #[trigger] paren_depth(tokens, k) < 0;
            assert(k <= n + 1 && paren_depth(tokens, k) < 0);
        } else if next.unmatched {
            assert(paren_depth(tokens, n + 1) < 0);
        } else {
            assert forall|k: nat| k <= n + 1 implies #[trigger] paren_depth(tokens, k) >= 0 by {
                if k <= n {
                } else {
                    assert(k == n + 1);
                }
            }
        }
    }
}

proof fn lemma_scan_parens(tokens: Seq<TokenView>, n: nat)
    requires
        n <= tokens.len(),
    ensures
        scan(tokens, n) matches Ok(yard) ==> counts_parens(yard, tokens, n),
    decreases n,
{
    if n > 0 {
        lemma_scan_parens(tokens, (n - 1) as nat);
        match scan(tokens, (n - 1) as nat) {
            Ok(yard) => {
                lemma_accept_parens(yard, tokens, (n - 1) as nat);
            },
            Err(_) => {},
        }
    } else {
        assert forall|k: nat| k <= 0 implies #[trigger] paren_depth(tokens, k) >= 0 by {}
    }
}

/// Where no single token is at fault, the tokens have a postfix order exactly if
/// their parentheses pair up; where they do not, in either direction, the error
/// is that of mismatched parentheses.
pub proof fn parentheses_decide_the_order(tokens: Seq<TokenView>)
    requires
        scan(tokens, tokens.len()) is Ok,
    ensures
        postfix_of(tokens) is Ok <==> balanced(tokens),
        postfix_of(tokens) matches Err(error) ==> error == ErrorView::MismatchedParentheses,
{
    let yard = scan(tokens, tokens.len())->Ok_0;
    lemma_scan_parens(tokens, tokens.len());
    lemma_scan_known(tokens, tokens.len());
    lemma_drain_parens(yard);
    lemma_drain_known(yard);
    if yard.unmatched {
        let k = choose|k: nat| k <= tokens.len() && #[trigger] paren_depth(tokens, k) < 0;
        assert(!balanced(tokens));
    } else {
        assert forall|n: nat| n <= tokens.len() implies #[trigger] paren_depth(tokens, n)
            >= 0 by {}
    }
}

/// Evaluating the same tokens again gives the same outcome: whatever two calls
/// of `evaluate` return for one sequence of tokens, the two results are equal.
pub proof fn evaluate_is_repeatable(
    tokens: Seq<TokenView>,
    first: Result<Expr, EvaluationError>,
    second: Result<Expr, EvaluationError>,
)
    requires
        outcome(first) == evaluation(tokens),
        outcome(second) == evaluation(tokens),
    ensures
        outcome(first) == outcome(second),
        first is Ok <==> second is Ok,
{
}

} // verus!
