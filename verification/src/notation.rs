//! Writing an expression down and reading it back.
//!
//! A tree of arithmetic can be written as tokens, and as text, with the usual
//! economy of parentheses: a product inside a sum needs none, a sum inside a
//! product does, and of two operators of equal strength the left one is computed
//! first. This module proves that evaluating what was written gives the tree back.
use vstd::prelude::*;
use crate::error::ErrorView;
use crate::evaluate::{apply, binary_op, evaluation, run, value_of};
use crate::expr::{BinaryOp, ExprView};
use crate::postfix::{
    operator_in, postfix_of, scan, token_before, unary_operation, unary_position, yields_before,
    Operation, PostfixView, StackEntry, YardView,
};
use crate::token::{is_operator, is_sign, precedence, TokenView};
use crate::tokenizer::{
    all_literal_chars, lemma_tokens_of_number_then, lemma_tokens_split, tokens_of,
};

verus! {

/// The character that stands for a binary operator.
pub open spec fn symbol_of(op: BinaryOp) -> char {
    match op {
        BinaryOp::Add => '+',
        BinaryOp::Subtract => '-',
        BinaryOp::Multiply => '*',
        BinaryOp::Divide => '/',
    }
}

/// The binding strength of a binary operator: 1 for sums, 2 for products.
pub open spec fn strength(op: BinaryOp) -> nat {
    precedence(symbol_of(op)) as nat
}

impl ExprView {
    /// Every leaf of the tree can be typed: it is made of digits and decimal
    /// points, and of at least one of them.
    pub open spec fn typed(self) -> bool
        decreases self,
    {
        match self {
            ExprView::Number(text) => text.len() > 0 && all_literal_chars(text),
            ExprView::Negate(operand) => operand.typed(),
            ExprView::Binary(_, left, right) => left.typed() && right.typed(),
        }
    }

    /// The tree in postfix order: the operands of an operation before it, the
    /// left one first.
    pub open spec fn postfix(self) -> Seq<PostfixView>
        decreases self,
    {
        match self {
            ExprView::Number(text) => seq![PostfixView::Number(text)],
            ExprView::Negate(operand) => operand.postfix().push(
                PostfixView::Apply(Operation::Negate),
            ),
            ExprView::Binary(op, left, right) => left.postfix() + right.postfix() + seq![
                PostfixView::Apply(Operation::Binary(symbol_of(op))),
            ],
        }
    }

    /// The tokens of the tree where an operand of strength `level` is asked for:
    /// 1 where a sum may stand, 2 where a product may, 3 where neither may.
    ///
    /// The left operand of an operator is written at the operator's own strength,
    /// the right one a level above it. A negation is written as `( - operand )`,
    /// with an operand that is a number or stands in parentheses itself.
    pub open spec fn tokens(self, level: nat) -> Seq<TokenView>
        decreases self,
    {
        match self {
            ExprView::Number(text) => seq![TokenView::Number(text)],
            ExprView::Negate(operand) => seq![TokenView::LeftParen, TokenView::Operator('-')]
                + operand.tokens(3) + seq![TokenView::RightParen],
            ExprView::Binary(op, left, right) => {
                let bare = left.tokens(strength(op)) + seq![TokenView::Operator(symbol_of(op))]
                    + right.tokens(strength(op) + 1);
                if strength(op) < level {
                    seq![TokenView::LeftParen] + bare + seq![TokenView::RightParen]
                } else {
                    bare
                }
            },
        }
    }

    /// The text of the tree where an operand of strength `level` is asked for:
    /// its tokens, written one behind the other.
    pub open spec fn text(self, level: nat) -> Seq<char>
        decreases self,
    {
        match self {
            ExprView::Number(text) => text,
            ExprView::Negate(operand) => seq!['(', '-'] + operand.text(3) + seq![')'],
            ExprView::Binary(op, left, right) => {
                let bare = left.text(strength(op)) + seq![symbol_of(op)] + right.text(
                    strength(op) + 1,
                );
                if strength(op) < level {
                    seq!['('] + bare + seq![')']
                } else {
                    bare
                }
            },
        }
    }

    /// The operators of the tree that still wait on the stack when its tokens
    /// have been read, bottom first: those on its right edge that no parenthesis
    /// encloses.
    pub open spec fn waiting(self, level: nat) -> Seq<StackEntry>
        decreases self,
    {
        match self {
            ExprView::Binary(op, _, right) if strength(op) >= level => seq![
                StackEntry::Pending(Operation::Binary(symbol_of(op))),
            ] + right.waiting(strength(op) + 1),
            _ => Seq::empty(),
        }
    }

    /// The part of the postfix order that has reached the output queue when the
    /// tokens of the tree have been read.
    pub open spec fn sent(self, level: nat) -> Seq<PostfixView>
        decreases self,
    {
        match self {
            ExprView::Binary(op, left, right) if strength(op) >= level => left.postfix()
                + right.sent(strength(op) + 1),
            _ => self.postfix(),
        }
    }
}

/// The operations of `entries` in the order in which they leave the stack: the
/// top, which is the last, first.
pub open spec fn released(entries: Seq<StackEntry>) -> Seq<PostfixView>
    decreases entries.len(),
{
    if entries.len() == 0 {
        Seq::empty()
    } else {
        seq![PostfixView::Apply(entries.last()->Pending_0)] + released(entries.drop_last())
    }
}

/// Every entry is an operation; none is a parenthesis.
pub open spec fn all_pending(entries: Seq<StackEntry>) -> bool {
    forall|i: int| 0 <= i < entries.len() ==> #[trigger] entries[i] is Pending
}

/// Every entry is a binary operator that binds at least as tightly as `level`.
pub open spec fn all_at_least(entries: Seq<StackEntry>, level: nat) -> bool {
    forall|i: int|
        0 <= i < entries.len() ==> (#[trigger] entries[i] matches StackEntry::Pending(
            Operation::Binary(held),
        ) && is_operator(held) && precedence(held) >= level)
}

/// The top of `stack` is no binary operator that binds as tightly as `level`: an
/// operator of that strength leaves the stack as it is.
pub open spec fn quiet(stack: Seq<StackEntry>, level: nat) -> bool {
    stack.len() == 0 || !(stack.last() matches StackEntry::Pending(Operation::Binary(held))
        && is_operator(held) && precedence(held) >= level)
}

/// The token in front of position `i` of `segment`, which follows `prev`.
pub open spec fn token_ahead(prev: Option<TokenView>, segment: Seq<TokenView>, i: int) -> Option<
    TokenView,
> {
    if i <= 0 {
        prev
    } else {
        Some(segment[i - 1])
    }
}

/// The state after the tokens of `segment`, read from the state `yard` with
/// `prev` in front of them.
pub open spec fn feed(yard: YardView, prev: Option<TokenView>, segment: Seq<TokenView>) -> Result<
    YardView,
    ErrorView,
>
    decreases segment.len(),
{
    if segment.len() == 0 {
        Ok(yard)
    } else {
        match feed(yard, prev, segment.drop_last()) {
            Ok(before) => before.accept(
                token_ahead(prev, segment, segment.len() - 1),
                segment.last(),
            ),
            Err(error) => Err(error),
        }
    }
}

/// The value stack after the items of `segment`, applied to `values`.
pub open spec fn run_on(values: Seq<ExprView>, segment: Seq<PostfixView>) -> Result<
    Seq<ExprView>,
    ErrorView,
>
    decreases segment.len(),
{
    if segment.len() == 0 {
        Ok(values)
    } else {
        match run_on(values, segment.drop_last()) {
            Ok(before) => apply(before, segment.last()),
            Err(error) => Err(error),
        }
    }
}

proof fn lemma_scan_is_feed(tokens: Seq<TokenView>, n: nat)
    requires
        n <= tokens.len(),
    ensures
        scan(tokens, n) == feed(YardView::empty(), None, tokens.take(n as int)),
    decreases n,
{
    if n > 0 {
        let segment = tokens.take(n as int);
        lemma_scan_is_feed(tokens, (n - 1) as nat);
        assert(segment.drop_last() =~= tokens.take(n - 1));
        assert(token_before(tokens, n - 1) == token_ahead(None, segment, n - 1));
    }
}

proof fn lemma_feed_one(yard: YardView, prev: Option<TokenView>, token: TokenView)
    ensures
        feed(yard, prev, seq![token]) == yard.accept(prev, token),
{
    let segment = seq![token];
    assert(segment.drop_last() =~= Seq::<TokenView>::empty());
    assert(feed(yard, prev, segment.drop_last()) == Ok::<YardView, ErrorView>(yard));
}

proof fn lemma_feed_then(
    yard: YardView,
    prev: Option<TokenView>,
    first: Seq<TokenView>,
    second: Seq<TokenView>,
)
    requires
        feed(yard, prev, first) is Ok,
    ensures
        feed(yard, prev, first + second) == feed(
            feed(yard, prev, first)->Ok_0,
            token_ahead(prev, first, first.len() as int),
            second,
        ),
    decreases second.len(),
{
    let whole = first + second;
    if second.len() == 0 {
        assert(whole =~= first);
    } else {
        assert(whole.drop_last() =~= first + second.drop_last());
        lemma_feed_then(yard, prev, first, second.drop_last());
        assert(token_ahead(prev, whole, whole.len() - 1) == token_ahead(
            token_ahead(prev, first, first.len() as int),
            second,
            second.len() - 1,
        ));
    }
}

proof fn lemma_run_is_run_on(queue: Seq<PostfixView>, n: nat)
    requires
        n <= queue.len(),
    ensures
        run(queue, n) == run_on(Seq::empty(), queue.take(n as int)),
    decreases n,
{
    if n > 0 {
        lemma_run_is_run_on(queue, (n - 1) as nat);
        assert(queue.take(n as int).drop_last() =~= queue.take(n - 1));
    }
}

proof fn lemma_run_on_then(
    values: Seq<ExprView>,
    first: Seq<PostfixView>,
    second: Seq<PostfixView>,
)
    requires
        run_on(values, first) is Ok,
    ensures
        run_on(values, first + second) == run_on(run_on(values, first)->Ok_0, second),
    decreases second.len(),
{
    let whole = first + second;
    if second.len() == 0 {
        assert(whole =~= first);
    } else {
        assert(whole.drop_last() =~= first + second.drop_last());
        lemma_run_on_then(values, first, second.drop_last());
    }
}

proof fn lemma_run_on_one(values: Seq<ExprView>, item: PostfixView)
    ensures
        run_on(values, seq![item]) == apply(values, item),
{
    let segment = seq![item];
    assert(segment.drop_last() =~= Seq::<PostfixView>::empty());
    assert(run_on(values, segment.drop_last()) == Ok::<Seq<ExprView>, ErrorView>(values));
}

/// Running the postfix order of a tree puts the tree on top of the values that
/// were there.
pub proof fn lemma_run_on_postfix(values: Seq<ExprView>, expr: ExprView)
    requires
        expr.well_formed(),
    ensures
        run_on(values, expr.postfix()) == Ok::<Seq<ExprView>, ErrorView>(values.push(expr)),
    decreases expr,
{
    match expr {
        ExprView::Number(text) => {
            lemma_run_on_one(values, PostfixView::Number(text));
        },
        ExprView::Negate(operand) => {
            let last = seq![PostfixView::Apply(Operation::Negate)];
            lemma_run_on_postfix(values, *operand);
            assert(expr.postfix() =~= operand.postfix() + last);
            lemma_run_on_then(values, operand.postfix(), last);
            lemma_run_on_one(values.push(*operand), PostfixView::Apply(Operation::Negate));
            assert(values.push(*operand).drop_last() =~= values);
        },
        ExprView::Binary(op, left, right) => {
            let operands = left.postfix() + right.postfix();
            let item = PostfixView::Apply(Operation::Binary(symbol_of(op)));
            lemma_run_on_postfix(values, *left);
            lemma_run_on_postfix(values.push(*left), *right);
            lemma_run_on_then(values, left.postfix(), right.postfix());
            let both = values.push(*left).push(*right);
            lemma_run_on_then(values, operands, seq![item]);
            lemma_run_on_one(both, item);
            assert(both.take(both.len() - 2) =~= values);
            assert(binary_op(symbol_of(op)) == Some(op));
        },
    }
}

proof fn lemma_released_one(operation: Operation)
    ensures
        released(seq![StackEntry::Pending(operation)]) == seq![PostfixView::Apply(operation)],
{
    let entries = seq![StackEntry::Pending(operation)];
    assert(entries.drop_last() =~= Seq::<StackEntry>::empty());
    assert(released(entries.drop_last()) =~= Seq::<PostfixView>::empty());
    assert(released(entries) =~= seq![PostfixView::Apply(operation)]);
}

proof fn lemma_released_then(below: Seq<StackEntry>, above: Seq<StackEntry>)
    ensures
        released(below + above) == released(above) + released(below),
    decreases above.len(),
{
    let whole = below + above;
    if above.len() == 0 {
        assert(whole =~= below);
        assert(released(above) + released(below) =~= released(below));
    } else {
        assert(whole.drop_last() =~= below + above.drop_last());
        lemma_released_then(below, above.drop_last());
        assert(released(whole) =~= released(above) + released(below));
    }
}

/// A closing parenthesis sends out the operations above the opening one and
/// takes the pair away.
proof fn lemma_close_group_block(yard: YardView, below: Seq<StackEntry>, block: Seq<StackEntry>)
    requires
        yard.stack == below + seq![StackEntry::LeftParen] + block,
        all_pending(block),
    ensures
        yard.close_group() == (YardView {
            stack: below,
            output: yard.output + released(block),
            unmatched: yard.unmatched,
        }),
    decreases block.len(),
{
    if block.len() == 0 {
        assert(yard.stack.drop_last() =~= below);
        assert(yard.output + released(block) =~= yard.output);
    } else {
        let top = block.last();
        assert(block[block.len() - 1] is Pending);
        assert(yard.stack.last() == top);
        let next = yard.pop().emit(PostfixView::Apply(top->Pending_0));
        assert(next.stack =~= below + seq![StackEntry::LeftParen] + block.drop_last());
        assert forall|i: int| 0 <= i < block.drop_last().len() implies #[trigger] block.drop_last()[i] is Pending by {
            assert(block.drop_last()[i] == block[i]);
        }
        lemma_close_group_block(next, below, block.drop_last());
        assert(next.output + released(block.drop_last()) =~= yard.output + released(block));
    }
}

/// A binary operator sends out the operators above a quiet stack that bind at
/// least as tightly, and leaves the quiet stack alone.
proof fn lemma_yield_to_block(
    yard: YardView,
    below: Seq<StackEntry>,
    block: Seq<StackEntry>,
    op: char,
)
    requires
        yard.stack == below + block,
        all_at_least(block, precedence(op) as nat),
        quiet(below, precedence(op) as nat),
    ensures
        yard.yield_to(op) == (YardView {
            stack: below,
            output: yard.output + released(block),
            unmatched: yard.unmatched,
        }),
    decreases block.len(),
{
    if block.len() == 0 {
        assert(yard.stack =~= below);
        assert(yard.output + released(block) =~= yard.output);
    } else {
        let top = block.last();
        assert(block[block.len() - 1] == top);
        assert(yard.stack.last() == top);
        assert(yields_before(top, op));
        let next = yard.pop().emit(PostfixView::Apply(top->Pending_0));
        assert(next.stack =~= below + block.drop_last());
        assert forall|i: int| 0 <= i < block.drop_last().len() implies (
        #[trigger] block.drop_last()[i] matches StackEntry::Pending(Operation::Binary(held))
            && is_operator(held) && precedence(held) >= precedence(op) as nat) by {
            assert(block.drop_last()[i] == block[i]);
        }
        lemma_yield_to_block(next, below, block.drop_last(), op);
        assert(next.output + released(block.drop_last()) =~= yard.output + released(block));
    }
}

/// At the end of the tokens a stack of operations moves to the output, top first.
proof fn lemma_drain_block(yard: YardView)
    requires
        all_pending(yard.stack),
    ensures
        yard.drain() == Ok::<Seq<PostfixView>, ErrorView>(yard.output + released(yard.stack)),
    decreases yard.stack.len(),
{
    let block = yard.stack;
    if block.len() == 0 {
        assert(yard.output + released(block) =~= yard.output);
    } else {
        let top = block.last();
        assert(block[block.len() - 1] is Pending);
        let next = yard.pop().emit(PostfixView::Apply(top->Pending_0));
        assert forall|i: int| 0 <= i < next.stack.len() implies #[trigger] next.stack[i] is Pending by {
            assert(next.stack[i] == block[i]);
        }
        lemma_drain_block(next);
        assert(next.output + released(next.stack) =~= yard.output + released(block));
    }
}

/// What waits of a tree binds at least as tightly as the level it was written
/// at, and what was sent and what waits make up its postfix order.
pub proof fn lemma_waiting(expr: ExprView, level: nat)
    ensures
        all_at_least(expr.waiting(level), level),
        all_pending(expr.waiting(level)),
        expr.sent(level) + released(expr.waiting(level)) == expr.postfix(),
    decreases expr,
{
    match expr {
        ExprView::Binary(op, left, right) => {
            if strength(op) >= level {
                let first = seq![StackEntry::Pending(Operation::Binary(symbol_of(op)))];
                let rest = right.waiting(strength(op) + 1);
                lemma_waiting(*right, strength(op) + 1);
                lemma_released_then(first, rest);
                lemma_released_one(Operation::Binary(symbol_of(op)));
                assert(expr.sent(level) + released(expr.waiting(level)) =~= left.postfix() + (
                right.sent(strength(op) + 1) + released(rest)) + released(first));
            } else {
                assert(expr.sent(level) + released(expr.waiting(level)) =~= expr.postfix());
            }
        },
        _ => {
            assert(expr.sent(level) + released(expr.waiting(level)) =~= expr.postfix());
        },
    }
}

/// The tokens of a tree are at least one, and the last of them ends an operand:
/// it is a number or a closing parenthesis.
pub proof fn lemma_tokens_end(expr: ExprView, level: nat)
    ensures
        expr.tokens(level).len() > 0,
        expr.tokens(level).last() is Number || expr.tokens(level).last() is RightParen,
    decreases expr,
{
    match expr {
        ExprView::Binary(op, left, right) => {
            lemma_tokens_end(*right, strength(op) + 1);
        },
        _ => {},
    }
}

/// What reading the tokens of `expr` makes of `yard`.
pub open spec fn fed(expr: ExprView, level: nat, yard: YardView) -> YardView {
    YardView {
        stack: yard.stack + expr.waiting(level),
        output: yard.output + expr.sent(level),
        unmatched: yard.unmatched,
    }
}

/// Reading tokens between a pair of parentheses, where the tokens leave only
/// operations above the opening one, sends all of them out and leaves the stack
/// as it was before the pair.
proof fn lemma_feed_group(
    yard: YardView,
    prev: Option<TokenView>,
    inner: Seq<TokenView>,
    block: Seq<StackEntry>,
    sent: Seq<PostfixView>,
)
    requires
        inner.len() > 0,
        all_pending(block),
        feed(yard.hold(StackEntry::LeftParen), Some(TokenView::LeftParen), inner) == Ok::<
            YardView,
            ErrorView,
        >(
            YardView {
                stack: yard.stack + seq![StackEntry::LeftParen] + block,
                output: yard.output + sent,
                unmatched: yard.unmatched,
            },
        ),
    ensures
        feed(yard, prev, seq![TokenView::LeftParen] + inner + seq![TokenView::RightParen]) == Ok::<
            YardView,
            ErrorView,
        >(
            YardView {
                stack: yard.stack,
                output: yard.output + sent + released(block),
                unmatched: yard.unmatched,
            },
        ),
{
    let open = seq![TokenView::LeftParen];
    let close = seq![TokenView::RightParen];
    let opened = yard.hold(StackEntry::LeftParen);
    let grown = YardView {
        stack: yard.stack + seq![StackEntry::LeftParen] + block,
        output: yard.output + sent,
        unmatched: yard.unmatched,
    };
    assert(open + inner + close =~= open + (inner + close));
    lemma_feed_one(yard, prev, TokenView::LeftParen);
    lemma_feed_then(yard, prev, open, inner + close);
    let left_paren = token_ahead(prev, open, 1);
    assert(left_paren == Some(TokenView::LeftParen));
    lemma_feed_then(opened, left_paren, inner, close);
    let last = token_ahead(left_paren, inner, inner.len() as int);
    lemma_feed_one(grown, last, TokenView::RightParen);
    lemma_close_group_block(grown, yard.stack, block);
}

/// Reading a sign where no operand stands on its left puts its operation on the
/// stack.
proof fn lemma_feed_sign(
    yard: YardView,
    prev: Option<TokenView>,
    sign: char,
    inner: Seq<TokenView>,
)
    requires
        is_sign(sign),
        unary_position(prev),
    ensures
        feed(yard, prev, seq![TokenView::Operator(sign)] + inner) == feed(
            yard.hold(StackEntry::Pending(unary_operation(sign))),
            Some(TokenView::Operator(sign)),
            inner,
        ),
{
    let first = seq![TokenView::Operator(sign)];
    lemma_feed_one(yard, prev, TokenView::Operator(sign));
    assert(yard.accept(prev, TokenView::Operator(sign)) == Ok::<YardView, ErrorView>(
        yard.hold(StackEntry::Pending(unary_operation(sign))),
    ));
    lemma_feed_then(yard, prev, first, inner);
    assert(token_ahead(prev, first, 1) == Some(TokenView::Operator(sign)));
}

/// Reading a binary operator behind an operand sends out what waits of the
/// operand and puts the operator on the quiet stack below.
proof fn lemma_feed_operator(
    yard: YardView,
    below: Seq<StackEntry>,
    block: Seq<StackEntry>,
    last: TokenView,
    symbol: char,
)
    requires
        is_operator(symbol),
        last is Number || last is RightParen,
        yard.stack == below + block,
        all_at_least(block, precedence(symbol) as nat),
        quiet(below, precedence(symbol) as nat),
    ensures
        yard.accept(Some(last), TokenView::Operator(symbol)) == Ok::<YardView, ErrorView>(
            YardView {
                stack: below.push(StackEntry::Pending(Operation::Binary(symbol))),
                output: yard.output + released(block),
                unmatched: yard.unmatched,
            },
        ),
{
    lemma_yield_to_block(yard, below, block, symbol);
    assert(operator_in(Some(last)) is None);
    assert(!unary_position(Some(last)));
}

/// Reading the tokens of a tree from a quiet stack gives no error, sends a part
/// of its postfix order to the output and leaves the rest waiting on top of what
/// the stack held.
pub proof fn lemma_feed_tokens(
    expr: ExprView,
    level: nat,
    yard: YardView,
    prev: Option<TokenView>,
)
    requires
        quiet(yard.stack, level),
    ensures
        feed(yard, prev, expr.tokens(level)) == Ok::<YardView, ErrorView>(fed(expr, level, yard)),
    decreases expr, level, 1nat,
{
    match expr {
        ExprView::Number(text) => {
            lemma_feed_one(yard, prev, TokenView::Number(text));
            assert(yard.stack + expr.waiting(level) =~= yard.stack);
            assert(yard.output + expr.sent(level) =~= yard.output.push(PostfixView::Number(text)));
        },
        ExprView::Negate(operand) => {
            lemma_feed_negation(expr, level, yard, prev);
        },
        ExprView::Binary(op, left, right) => {
            if strength(op) < level {
                lemma_feed_wrapped(expr, level, yard, prev);
            } else {
                lemma_feed_bare(expr, level, yard, prev);
            }
        },
    }
}

proof fn lemma_feed_negation(
    expr: ExprView,
    level: nat,
    yard: YardView,
    prev: Option<TokenView>,
)
    requires
        expr is Negate,
    ensures
        feed(yard, prev, expr.tokens(level)) == Ok::<YardView, ErrorView>(fed(expr, level, yard)),
    decreases expr, level, 0nat,
{
    let operand = *expr->Negate_0;
    let negate = StackEntry::Pending(Operation::Negate);
    let opened = yard.hold(StackEntry::LeftParen);
    let signed = opened.hold(negate);
    let inner = seq![TokenView::Operator('-')] + operand.tokens(3);
    let block = seq![negate] + operand.waiting(3);
    lemma_feed_sign(opened, Some(TokenView::LeftParen), '-', operand.tokens(3));
    lemma_feed_tokens(operand, 3, signed, Some(TokenView::Operator('-')));
    lemma_waiting(operand, 3);
    assert(fed(operand, 3, signed).stack =~= yard.stack + seq![StackEntry::LeftParen] + block);
    assert(fed(operand, 3, signed).output =~= yard.output + operand.sent(3));
    assert forall|i: int| 0 <= i < block.len() implies #[trigger] block[i] is Pending by {
        if i > 0 {
            assert(block[i] == operand.waiting(3)[i - 1]);
        }
    }
    lemma_feed_group(yard, prev, inner, block, operand.sent(3));
    assert(expr.tokens(level) =~= seq![TokenView::LeftParen] + inner + seq![
        TokenView::RightParen,
    ]);
    lemma_released_then(seq![negate], operand.waiting(3));
    lemma_released_one(Operation::Negate);
    assert(yard.output + operand.sent(3) + released(block) =~= yard.output + (operand.sent(3)
        + released(operand.waiting(3))) + seq![PostfixView::Apply(Operation::Negate)]);
    assert(yard.output + operand.sent(3) + released(block) =~= yard.output + expr.sent(level));
    assert(yard.stack + expr.waiting(level) =~= yard.stack);
}

proof fn lemma_feed_wrapped(
    expr: ExprView,
    level: nat,
    yard: YardView,
    prev: Option<TokenView>,
)
    requires
        expr matches ExprView::Binary(op, _, _) && strength(op) < level,
    ensures
        feed(yard, prev, expr.tokens(level)) == Ok::<YardView, ErrorView>(fed(expr, level, yard)),
    decreases expr, level, 0nat,
{
    let p = strength(expr->Binary_0);
    let opened = yard.hold(StackEntry::LeftParen);
    let bare = expr.tokens(p);
    lemma_feed_tokens(expr, p, opened, Some(TokenView::LeftParen));
    lemma_waiting(expr, p);
    lemma_tokens_end(expr, p);
    assert(fed(expr, p, opened).stack =~= yard.stack + seq![StackEntry::LeftParen] + expr.waiting(
        p,
    ));
    assert(fed(expr, p, opened).output =~= yard.output + expr.sent(p));
    lemma_feed_group(yard, prev, bare, expr.waiting(p), expr.sent(p));
    assert(expr.tokens(level) =~= seq![TokenView::LeftParen] + bare + seq![
        TokenView::RightParen,
    ]);
    assert(yard.output + expr.sent(p) + released(expr.waiting(p)) =~= yard.output + (expr.sent(p)
        + released(expr.waiting(p))));
    assert(yard.stack + expr.waiting(level) =~= yard.stack);
}

proof fn lemma_feed_bare(expr: ExprView, level: nat, yard: YardView, prev: Option<TokenView>)
    requires
        expr matches ExprView::Binary(op, _, _) && strength(op) >= level,
        quiet(yard.stack, level),
    ensures
        feed(yard, prev, expr.tokens(level)) == Ok::<YardView, ErrorView>(fed(expr, level, yard)),
    decreases expr, level, 0nat,
{
    let op = expr->Binary_0;
    let left = *expr->Binary_1;
    let right = *expr->Binary_2;
    let p = strength(op);
    let symbol = symbol_of(op);
    let first = left.tokens(p);
    let sign = seq![TokenView::Operator(symbol)];
    let second = right.tokens(p + 1);
    assert(expr.tokens(level) =~= first + (sign + second));
    // the left operand
    lemma_feed_tokens(left, p, yard, prev);
    let grown = fed(left, p, yard);
    lemma_feed_then(yard, prev, first, sign + second);
    // the operator
    lemma_tokens_end(left, p);
    let last = token_ahead(prev, first, first.len() as int);
    assert(last == Some(first.last()));
    lemma_waiting(left, p);
    lemma_feed_operator(grown, yard.stack, left.waiting(p), first.last(), symbol);
    lemma_feed_one(grown, last, TokenView::Operator(symbol));
    let entry = StackEntry::Pending(Operation::Binary(symbol));
    let held = YardView {
        stack: yard.stack.push(entry),
        output: grown.output + released(left.waiting(p)),
        unmatched: yard.unmatched,
    };
    assert(held.output =~= yard.output + (left.sent(p) + released(left.waiting(p))));
    lemma_feed_then(grown, last, sign, second);
    // the right operand
    assert(held.stack.last() == entry);
    lemma_feed_tokens(right, p + 1, held, token_ahead(last, sign, 1));
    assert(held.stack + right.waiting(p + 1) =~= yard.stack + expr.waiting(level));
    assert(held.output + right.sent(p + 1) =~= yard.output + expr.sent(level));
}

/// The tokens of a tree have the postfix order of the tree.
pub proof fn postfix_of_written_tokens(expr: ExprView, level: nat)
    ensures
        postfix_of(expr.tokens(level)) == Ok::<Seq<PostfixView>, ErrorView>(expr.postfix()),
{
    let tokens = expr.tokens(level);
    let start = YardView::empty();
    lemma_scan_is_feed(tokens, tokens.len());
    assert(tokens.take(tokens.len() as int) =~= tokens);
    lemma_feed_tokens(expr, level, start, None);
    lemma_waiting(expr, level);
    let yard = scan(tokens, tokens.len())->Ok_0;
    assert(yard.stack =~= expr.waiting(level));
    assert(yard.output =~= expr.sent(level));
    lemma_drain_block(yard);
}

/// The postfix order of a tree with numeric literals at its leaves has the tree
/// as its value.
pub proof fn value_of_postfix_order(expr: ExprView)
    requires
        expr.well_formed(),
    ensures
        value_of(expr.postfix()) == Ok::<ExprView, ErrorView>(expr),
{
    let queue = expr.postfix();
    lemma_run_is_run_on(queue, queue.len());
    assert(queue.take(queue.len() as int) =~= queue);
    lemma_run_on_postfix(Seq::empty(), expr);
}

/// Evaluating the tokens that a tree is written with gives the tree back: the
/// evaluation succeeds and computes each operation on the operands that the
/// writing means, with the usual precedence and from left to right.
pub proof fn evaluation_of_written_tokens(expr: ExprView, level: nat)
    requires
        expr.well_formed(),
    ensures
        evaluation(expr.tokens(level)) == Ok::<ExprView, ErrorView>(expr),
{
    postfix_of_written_tokens(expr, level);
    value_of_postfix_order(expr);
}

/// The tree that a sign in front of `expr` makes of it: the negation for `-`,
/// `expr` itself for `+`.
pub open spec fn signed(sign: char, expr: ExprView) -> ExprView {
    if sign == '-' {
        ExprView::Negate(Box::new(expr))
    } else {
        expr
    }
}

/// A sign in front of an expression applies to all of it: the operators behind
/// the sign are computed first, whatever their strength, and the sign last. So
/// `- 5 + 3` is the negation of the sum.
pub proof fn leading_sign_applies_to_the_whole(sign: char, expr: ExprView)
    requires
        is_sign(sign),
        expr.well_formed(),
    ensures
        evaluation(seq![TokenView::Operator(sign)] + expr.tokens(1)) == Ok::<
            ExprView,
            ErrorView,
        >(signed(sign, expr)),
{
    let inner = expr.tokens(1);
    let tokens = seq![TokenView::Operator(sign)] + inner;
    let operation = unary_operation(sign);
    let start = YardView::empty();
    let held = start.hold(StackEntry::Pending(operation));
    lemma_scan_is_feed(tokens, tokens.len());
    assert(tokens.take(tokens.len() as int) =~= tokens);
    lemma_feed_sign(start, None, sign, inner);
    lemma_feed_tokens(expr, 1, held, Some(TokenView::Operator(sign)));
    lemma_waiting(expr, 1);
    let yard = fed(expr, 1, held);
    let block = seq![StackEntry::Pending(operation)] + expr.waiting(1);
    assert(yard.stack =~= block);
    assert forall|i: int| 0 <= i < block.len() implies #[trigger] block[i] is Pending by {
        if i > 0 {
            assert(block[i] == expr.waiting(1)[i - 1]);
        }
    }
    lemma_drain_block(yard);
    lemma_released_then(seq![StackEntry::Pending(operation)], expr.waiting(1));
    lemma_released_one(operation);
    let queue = expr.postfix() + seq![PostfixView::Apply(operation)];
    assert(yard.output + released(block) =~= queue);
    assert(postfix_of(tokens) == Ok::<Seq<PostfixView>, ErrorView>(queue));
    // the run of that order
    let none = Seq::<ExprView>::empty();
    lemma_run_is_run_on(queue, queue.len());
    assert(queue.take(queue.len() as int) =~= queue);
    lemma_run_on_postfix(none, expr);
    lemma_run_on_then(none, expr.postfix(), seq![PostfixView::Apply(operation)]);
    lemma_run_on_one(none.push(expr), PostfixView::Apply(operation));
    assert(none.push(expr).drop_last() =~= none);
}

/// The text of a tree whose leaves can be typed splits into the tokens of the
/// tree.
pub proof fn tokens_of_written_text(expr: ExprView, level: nat)
    requires
        expr.typed(),
    ensures
        tokens_of(expr.text(level)) == expr.tokens(level),
    decreases expr,
{
    let nothing = Seq::<char>::empty();
    assert(tokens_of(nothing) =~= Seq::<TokenView>::empty());
    match expr {
        ExprView::Number(text) => {
            lemma_tokens_of_number_then(text, nothing);
            assert(text + nothing =~= text);
            assert(seq![TokenView::Number(text)] + tokens_of(nothing) =~= expr.tokens(level));
        },
        ExprView::Negate(operand) => {
            let inner = operand.text(3);
            tokens_of_written_text(*operand, 3);
            lemma_tokens_split(inner, ')', nothing);
            assert(inner + seq![')'] + nothing =~= inner + seq![')']);
            lemma_tokens_split(nothing, '-', inner + seq![')']);
            assert(nothing + seq!['-'] + (inner + seq![')']) =~= seq!['-'] + inner + seq![')']);
            lemma_tokens_split(nothing, '(', seq!['-'] + inner + seq![')']);
            assert(nothing + seq!['('] + (seq!['-'] + inner + seq![')']) =~= expr.text(level));
            assert(tokens_of(expr.text(level)) =~= expr.tokens(level));
        },
        ExprView::Binary(op, left, right) => {
            let p = strength(op);
            let symbol = symbol_of(op);
            let bare = left.text(p) + seq![symbol] + right.text(p + 1);
            tokens_of_written_text(*left, p);
            tokens_of_written_text(*right, p + 1);
            lemma_tokens_split(left.text(p), symbol, right.text(p + 1));
            if p < level {
                lemma_tokens_split(bare, ')', nothing);
                assert(bare + seq![')'] + nothing =~= bare + seq![')']);
                lemma_tokens_split(nothing, '(', bare + seq![')']);
                assert(nothing + seq!['('] + (bare + seq![')']) =~= expr.text(level));
                assert(tokens_of(expr.text(level)) =~= expr.tokens(level));
            }
        },
    }
}

/// Tokenizing and evaluating the text of a tree gives the tree back, whenever its
/// leaves can be typed and are numeric literals.
pub proof fn evaluation_of_written_text(expr: ExprView, level: nat)
    requires
        expr.typed(),
        expr.well_formed(),
    ensures
        evaluation(tokens_of(expr.text(level))) == Ok::<ExprView, ErrorView>(expr),
{
    tokens_of_written_text(expr, level);
    evaluation_of_written_tokens(expr, level);
}

} // verus!
