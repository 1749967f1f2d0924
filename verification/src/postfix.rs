//! From tokens in the order of writing to operations in the order of computing.
//!
//! The tokens are read once, from left to right. Numbers go straight to the output
//! queue. Operators wait on a stack until an operator that binds no tighter, a
//! closing parenthesis or the end of the tokens sends them to the queue.
use vstd::prelude::*;
use crate::error::{ErrorView, EvaluationError};
use crate::outcome;
use crate::token::{is_operator, is_sign, precedence, Token, TokenView};

verus! {

/// What the arithmetic can be asked to do with the values computed so far.
#[derive(Clone, Copy, Debug, PartialEq, Eq)]
pub enum Operation {
    /// Replace the last value by its negation: a `-` in front of an operand.
    Negate,
    /// Keep the last value as it is: a `+` in front of an operand.
    Keep,
    /// Combine the last two values by the binary operator with this symbol.
    Binary(char),
}

/// One step of an expression in postfix order.
#[derive(Debug, PartialEq, Eq)]
pub enum PostfixItem {
    /// Push the number with this text.
    Number(String),
    /// Apply the operation to the values pushed last.
    Apply(Operation),
}

/// The mathematical value of a [`PostfixItem`].
pub ghost enum PostfixView {
    Number(Seq<char>),
    Apply(Operation),
}

impl View for PostfixItem {
    type V = PostfixView;

    open spec fn view(&self) -> PostfixView {
        match self {
            PostfixItem::Number(text) => PostfixView::Number(text@),
            PostfixItem::Apply(operation) => PostfixView::Apply(*operation),
        }
    }
}

impl DeepView for PostfixItem {
    type V = PostfixView;

    open spec fn deep_view(&self) -> PostfixView {
        self@
    }
}

impl Clone for PostfixItem {
    fn clone(&self) -> (copy: Self)
        ensures
            copy == *self,
    {
        match self {
            PostfixItem::Number(text) => PostfixItem::Number(text.clone()),
            PostfixItem::Apply(operation) => PostfixItem::Apply(*operation),
        }
    }
}

/// What waits on the operator stack.
#[derive(Clone, Copy, Debug, PartialEq, Eq)]
pub enum StackEntry {
    /// An opening parenthesis that has not been closed yet.
    LeftParen,
    /// An operation whose operands are not complete yet.
    Pending(Operation),
}

/// The state of the conversion between two tokens.
pub ghost struct YardView {
    /// The operator stack, its top last.
    pub stack: Seq<StackEntry>,
    /// The output queue, in the order in which the items were sent.
    pub output: Seq<PostfixView>,
    /// A closing parenthesis has found no opening one to pair with.
    pub unmatched: bool,
}

/// `top` is a binary operator that binds at least as tightly as `op`, so that it
/// is computed before `op`.
pub open spec fn yields_before(top: StackEntry, op: char) -> bool {
    top matches StackEntry::Pending(Operation::Binary(held)) && is_operator(held) && precedence(
        held,
    ) >= precedence(op)
}

/// The operator that `prev` is, if it is one of the four.
pub open spec fn operator_in(prev: Option<TokenView>) -> Option<char> {
    match prev {
        Some(TokenView::Operator(op)) => if is_operator(op) {
            Some(op)
        } else {
            None
        },
        _ => None,
    }
}

/// An operator that follows `prev` has no operand on its left: nothing precedes
/// it, or an opening parenthesis, or another operator.
pub open spec fn unary_position(prev: Option<TokenView>) -> bool {
    prev is None || prev == Some(TokenView::LeftParen) || operator_in(prev) is Some
}

/// The operation that a sign in front of an operand stands for.
pub open spec fn spec_unary_operation(sign: char) -> Operation {
    if sign == '-' {
        Operation::Negate
    } else {
        Operation::Keep
    }
}

impl YardView {
    /// The state before the first token.
    pub open spec fn empty() -> YardView {
        YardView { stack: Seq::empty(), output: Seq::empty(), unmatched: false }
    }

    /// The state with `item` sent to the output queue.
    pub open spec fn emit(self, item: PostfixView) -> YardView {
        YardView { output: self.output.push(item), ..self }
    }

    /// The state with `entry` on top of the stack.
    pub open spec fn hold(self, entry: StackEntry) -> YardView {
        YardView { stack: self.stack.push(entry), ..self }
    }

    /// The state with the top of the stack taken off.
    pub open spec fn pop(self) -> YardView {
        YardView { stack: self.stack.drop_last(), ..self }
    }

    /// The state after every binary operator on top of the stack that binds at
    /// least as tightly as `op` has moved to the output queue, top first.
    pub open spec fn yield_to(self, op: char) -> YardView
        decreases self.stack.len(),
    {
        if self.stack.len() > 0 && yields_before(self.stack.last(), op) {
            self.pop().emit(PostfixView::Apply(self.stack.last()->Pending_0)).yield_to(op)
        } else {
            self
        }
    }

    /// The state after a closing parenthesis: the operations above the topmost
    /// opening parenthesis have moved to the output queue, top first, and that
    /// parenthesis is gone. Where the stack holds no opening parenthesis, all of it
    /// has moved and the closing one is recorded as unmatched.
    pub open spec fn close_group(self) -> YardView
        decreases self.stack.len(),
    {
        if self.stack.len() == 0 {
            YardView { unmatched: true, ..self }
        } else {
            match self.stack.last() {
                StackEntry::LeftParen => self.pop(),
                StackEntry::Pending(operation) => self.pop().emit(
                    PostfixView::Apply(operation),
                ).close_group(),
            }
        }
    }

    /// The output queue after the last token: what is left on the stack moves to
    /// it, top first. An opening parenthesis that is still there was never closed.
    pub open spec fn drain(self) -> Result<Seq<PostfixView>, ErrorView>
        decreases self.stack.len(),
    {
        if self.stack.len() == 0 {
            Ok(self.output)
        } else {
            match self.stack.last() {
                StackEntry::LeftParen => Err(ErrorView::MismatchedParentheses),
                StackEntry::Pending(operation) => self.pop().emit(
                    PostfixView::Apply(operation),
                ).drain(),
            }
        }
    }

    /// The postfix order that this state ends in when no token follows.
    pub open spec fn finish(self) -> Result<Seq<PostfixView>, ErrorView> {
        if self.unmatched {
            Err(ErrorView::MismatchedParentheses)
        } else {
            self.drain()
        }
    }

    /// The state after `token`, which follows `prev`, or the error that it raises.
    pub open spec fn accept(self, prev: Option<TokenView>, token: TokenView) -> Result<
        YardView,
        ErrorView,
    > {
        match token {
            TokenView::Number(text) => Ok(self.emit(PostfixView::Number(text))),
            TokenView::Operator(op) => {
                if !is_operator(op) {
                    Err(ErrorView::UnexpectedToken(token))
                } else if operator_in(prev) is Some && !is_sign(op) {
                    Err(ErrorView::ConsecutiveOperators(operator_in(prev)->0, op))
                } else if is_sign(op) && unary_position(prev) {
                    Ok(self.hold(StackEntry::Pending(spec_unary_operation(op))))
                } else {
                    Ok(self.yield_to(op).hold(StackEntry::Pending(Operation::Binary(op))))
                }
            },
            TokenView::LeftParen => Ok(self.hold(StackEntry::LeftParen)),
            TokenView::RightParen => Ok(self.close_group()),
        }
    }
}

/// The token in front of position `i`, if there is one.
pub open spec fn token_before(tokens: Seq<TokenView>, i: int) -> Option<TokenView> {
    if 0 < i <= tokens.len() {
        Some(tokens[i - 1])
    } else {
        None
    }
}

/// The state after the first `n` tokens, or the first error among them.
pub open spec fn scan(tokens: Seq<TokenView>, n: nat) -> Result<YardView, ErrorView>
    decreases n,
{
    if n == 0 {
        Ok(YardView::empty())
    } else {
        match scan(tokens, (n - 1) as nat) {
            Ok(yard) => yard.accept(token_before(tokens, n - 1), tokens[n - 1]),
            Err(error) => Err(error),
        }
    }
}

/// The postfix order of `tokens`, or the reason why they have none.
///
/// An error of a single token comes first, in the order of the tokens; unpaired
/// parentheses come to light only when every token has passed.
pub open spec fn postfix_of(tokens: Seq<TokenView>) -> Result<Seq<PostfixView>, ErrorView> {
    match scan(tokens, tokens.len()) {
        Ok(yard) => yard.finish(),
        Err(error) => Err(error),
    }
}

/// The operation that a sign in front of an operand stands for.
#[verifier::when_used_as_spec(spec_unary_operation)]
pub fn unary_operation(sign: char) -> (operation: Operation)
    ensures
        operation == spec_unary_operation(sign),
{
    if sign == '-' {
        Operation::Negate
    } else {
        Operation::Keep
    }
}

/// The conversion at work: the stack, the queue and the flag of [`YardView`].
struct Yard {
    stack: Vec<StackEntry>,
    output: Vec<PostfixItem>,
    unmatched: bool,
}

impl View for Yard {
    type V = YardView;

    closed spec fn view(&self) -> YardView {
        YardView {
            stack: self.stack@,
            output: self.output.deep_view(),
            unmatched: self.unmatched,
        }
    }
}

impl Yard {
    fn new() -> (yard: Yard)
        ensures
            yard@ == YardView::empty(),
    {
        let yard = Yard { stack: Vec::new(), output: Vec::new(), unmatched: false };
        assert(yard.output.deep_view() =~= Seq::<PostfixView>::empty());
        yard
    }

    fn emit(&mut self, item: PostfixItem)
        ensures
            final(self)@ == old(self)@.emit(item@),
    {
        self.output.push(item);
        assert(self.output.deep_view() =~= old(self).output.deep_view().push(item@));
    }

    fn hold(&mut self, entry: StackEntry)
        ensures
            final(self)@ == old(self)@.hold(entry),
    {
        self.stack.push(entry);
    }

    fn yield_to(&mut self, op: char)
        ensures
            final(self)@ == old(self)@.yield_to(op),
    {
        loop
            invariant_except_break
                self@.yield_to(op) == old(self)@.yield_to(op),
            ensures
                self@ == old(self)@.yield_to(op),
            decreases self.stack.len(),
        {
            let n = self.stack.len();
            if n == 0 {
                break ;
            }
            match self.stack[n - 1] {
                StackEntry::Pending(Operation::Binary(held)) => {
                    if is_operator(held) && precedence(held) >= precedence(op) {
                        let ghost before = self@;
                        self.stack.pop();
                        self.emit(PostfixItem::Apply(Operation::Binary(held)));
                        assert(self@ == before.pop().emit(
                            PostfixView::Apply(Operation::Binary(held)),
                        ));
                    } else {
                        break ;
                    }
                },
                _ => {
                    break ;
                },
            }
        }
    }

    fn close_group(&mut self)
        ensures
            final(self)@ == old(self)@.close_group(),
    {
        loop
            invariant_except_break
                self@.close_group() == old(self)@.close_group(),
            ensures
                self@ == old(self)@.close_group(),
            decreases self.stack.len(),
        {
            let ghost before = self@;
            match self.stack.pop() {
                None => {
                    self.unmatched = true;
                    break ;
                },
                Some(StackEntry::LeftParen) => {
                    assert(self@ == before.pop());
                    break ;
                },
                Some(StackEntry::Pending(operation)) => {
                    self.emit(PostfixItem::Apply(operation));
                    assert(self@ == before.pop().emit(PostfixView::Apply(operation)));
                },
            }
        }
    }

    fn finish(self) -> (result: Result<Vec<PostfixItem>, EvaluationError>)
        ensures
            outcome(result) == self@.finish(),
    {
        if self.unmatched {
            return Err(EvaluationError::MismatchedParentheses);
        }
        let ghost start = self@;
        let mut yard = self;
        loop
            invariant
                self@.finish() == start.drain(),
                yard@.drain() == start.drain(),
            decreases yard.stack.len(),
        {
            let ghost before = yard@;
            match yard.stack.pop() {
                None => {
                    return Ok(yard.output);
                },
                Some(StackEntry::LeftParen) => {
                    return Err(EvaluationError::MismatchedParentheses);
                },
                Some(StackEntry::Pending(operation)) => {
                    yard.emit(PostfixItem::Apply(operation));
                    assert(yard@ == before.pop().emit(PostfixView::Apply(operation)));
                },
            }
        }
    }
}

/// Tells which operator stands in front of position `i`, if one does.
fn operator_before(tokens: &[Token], i: usize) -> (before: Option<char>)
    requires
        i < tokens.len(),
    ensures
        before == operator_in(token_before(tokens.deep_view(), i as int)),
{
    if i == 0 {
        return None;
    }
    match &tokens[i - 1] {
        Token::Operator(op) => {
            if is_operator(*op) {
                Some(*op)
            } else {
                None
            }
        },
        _ => None,
    }
}

/// Tells whether an operator at position `i` has no operand on its left.
fn in_unary_position(tokens: &[Token], i: usize) -> (yes: bool)
    requires
        i < tokens.len(),
    ensures
        yes == unary_position(token_before(tokens.deep_view(), i as int)),
{
    if i == 0 {
        return true;
    }
    match &tokens[i - 1] {
        Token::Operator(op) => is_operator(*op),
        Token::LeftParen => true,
        _ => false,
    }
}

/// Brings `tokens` into postfix order.
///
/// A number goes to the output as it comes. A `+` or `-` with no operand on its
/// left is a sign: it waits until a closing parenthesis or the end of the tokens
/// sends it out, whatever operators follow. Any other operator first sends out the
/// binary operators that wait on top and bind at least as tightly. Parentheses
/// group; each pair is checked only when all tokens have been read.
pub fn to_postfix(tokens: &[Token]) -> (result: Result<Vec<PostfixItem>, EvaluationError>)
    ensures
        outcome(result) == postfix_of(tokens.deep_view()),
{
    let ghost all = tokens.deep_view();
    let mut yard = Yard::new();
    let mut i: usize = 0;
    while i < tokens.len()
        invariant
            i <= tokens.len(),
            all == tokens.deep_view(),
            scan(all, i as nat) == Ok::<YardView, ErrorView>(yard@),
        decreases tokens.len() - i,
    {
        let ghost before = yard@;
        let ghost prev = token_before(all, i as int);
        assert(all[i as int] == tokens[i as int]@);
        match &tokens[i] {
            Token::Number(text) => {
                yard.emit(PostfixItem::Number(text.clone()));
            },
            Token::Operator(op) => {
                let op = *op;
                if !is_operator(op) {
                    proof {
                        lemma_scan_fails(all, (i + 1) as nat);
                    }
                    return Err(EvaluationError::UnexpectedToken(Token::Operator(op)));
                }
                let sign = is_sign(op);
                match operator_before(tokens, i) {
                    Some(held) => {
                        if !sign {
                            proof {
                                lemma_scan_fails(all, (i + 1) as nat);
                            }
                            return Err(EvaluationError::ConsecutiveOperators(held, op));
                        }
                    },
                    None => {},
                }
                if sign && in_unary_position(tokens, i) {
                    yard.hold(StackEntry::Pending(unary_operation(op)));
                } else {
                    yard.yield_to(op);
                    yard.hold(StackEntry::Pending(Operation::Binary(op)));
                }
            },
            Token::LeftParen => {
                yard.hold(StackEntry::LeftParen);
            },
            Token::RightParen => {
                yard.close_group();
            },
        }
        assert(before.accept(prev, all[i as int]) == Ok::<YardView, ErrorView>(yard@));
        i += 1;
    }
    yard.finish()
}

/// Once the scan has failed it stays failed: the first error is the one that counts.
pub proof fn lemma_scan_fails(tokens: Seq<TokenView>, n: nat)
    requires
        n <= tokens.len(),
        scan(tokens, n) is Err,
    ensures
        scan(tokens, tokens.len()) == scan(tokens, n),
    decreases tokens.len() - n,
{
    if n < tokens.len() {
        lemma_scan_fails(tokens, n + 1);
    }
}

} // verus!
