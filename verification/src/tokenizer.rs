//! Splitting a line of text into tokens.
use vstd::prelude::*;
use crate::token::{is_literal_char, is_operator, Token, TokenView};

verus! {

broadcast use vstd::string::group_string_axioms;

/// Every character of `text` may be part of a number.
pub open spec fn all_literal_chars(text: Seq<char>) -> bool {
    forall|k: int| 0 <= k < text.len() ==> is_literal_char(#[trigger] text[k])
}

/// The length of the longest prefix of `text` that is made of digits and decimal
/// points.
pub open spec fn literal_run(text: Seq<char>) -> nat
    decreases text.len(),
{
    if text.len() > 0 && is_literal_char(text[0]) {
        1 + literal_run(text.skip(1))
    } else {
        0
    }
}

/// The tokens that a character outside of numbers stands for: an operator or a
/// parenthesis is a token by itself, a space or any other character is none.
pub open spec fn symbol_tokens(c: char) -> Seq<TokenView> {
    if is_operator(c) {
        seq![TokenView::Operator(c)]
    } else if c == '(' {
        seq![TokenView::LeftParen]
    } else if c == ')' {
        seq![TokenView::RightParen]
    } else {
        Seq::empty()
    }
}

/// The tokens of `text`, from left to right.
///
/// A number is a longest run of digits and decimal points: it ends only where
/// another kind of character, or the text, ends it.
pub open spec fn tokens_of(text: Seq<char>) -> Seq<TokenView>
    decreases text.len(),
    via tokens_of_terminates
{
    if text.len() == 0 {
        Seq::empty()
    } else if is_literal_char(text[0]) {
        let n = literal_run(text) as int;
        seq![TokenView::Number(text.take(n))] + tokens_of(text.skip(n))
    } else {
        symbol_tokens(text[0]) + tokens_of(text.skip(1))
    }
}

#[via_fn]
proof fn tokens_of_terminates(text: Seq<char>) {
    lemma_literal_run_bounds(text);
}

/// A run is never longer than the text, and the character behind it, if there is
/// one, is no part of a number.
pub proof fn lemma_literal_run_bounds(text: Seq<char>)
    ensures
        literal_run(text) <= text.len(),
        all_literal_chars(text.take(literal_run(text) as int)),
        literal_run(text) < text.len() ==> !is_literal_char(text[literal_run(text) as int]),
    decreases text.len(),
{
    if text.len() > 0 && is_literal_char(text[0]) {
        let rest = text.skip(1);
        lemma_literal_run_bounds(rest);
        let n = literal_run(text) as int;
        assert forall|k: int| 0 <= k < n implies is_literal_char(#[trigger] text.take(n)[k]) by {
            if k > 0 {
                assert(text.take(n)[k] == rest.take(n - 1)[k - 1]);
            }
        }
        if n < text.len() {
            assert(text[n] == rest[n - 1]);
        }
    }
}

/// A run of number characters in front of a text that does not go on with one is
/// the whole run of the two together.
pub proof fn lemma_literal_run_of_prefix(run: Seq<char>, rest: Seq<char>)
    requires
        all_literal_chars(run),
        rest.len() == 0 || !is_literal_char(rest[0]),
    ensures
        literal_run(run + rest) == run.len(),
    decreases run.len(),
{
    let text = run + rest;
    if run.len() == 0 {
        assert(text =~= rest);
    } else {
        assert(text[0] == run[0]);
        assert(text.skip(1) =~= run.skip(1) + rest);
        lemma_literal_run_of_prefix(run.skip(1), rest);
    }
}

/// A pending number in front of a text that ends it becomes one token, followed by
/// the tokens of that text.
pub proof fn lemma_tokens_of_number_then(run: Seq<char>, rest: Seq<char>)
    requires
        run.len() > 0,
        all_literal_chars(run),
        rest.len() == 0 || !is_literal_char(rest[0]),
    ensures
        tokens_of(run + rest) == seq![TokenView::Number(run)] + tokens_of(rest),
{
    let text = run + rest;
    lemma_literal_run_of_prefix(run, rest);
    assert(text[0] == run[0]);
    assert(text.take(run.len() as int) =~= run);
    assert(text.skip(run.len() as int) =~= rest);
}

/// What holds of every token that comes out of a text: a number is not empty and
/// made of digits and decimal points, and an operator is one of the four.
pub open spec fn well_lexed(token: TokenView) -> bool {
    match token {
        TokenView::Number(text) => text.len() > 0 && all_literal_chars(text),
        TokenView::Operator(op) => is_operator(op),
        TokenView::LeftParen => true,
        TokenView::RightParen => true,
    }
}

/// Every token of a sequence is well lexed.
pub open spec fn all_well_lexed(tokens: Seq<TokenView>) -> bool {
    forall|i: int| 0 <= i < tokens.len() ==> well_lexed(#[trigger] tokens[i])
}

/// No text yields an empty number, a number with a foreign character in it, or an
/// operator outside of the four.
pub proof fn lemma_tokens_well_lexed(text: Seq<char>)
    ensures
        all_well_lexed(tokens_of(text)),
    decreases text.len(),
{
    if text.len() == 0 {
    } else if is_literal_char(text[0]) {
        let n = literal_run(text) as int;
        lemma_literal_run_bounds(text);
        lemma_tokens_well_lexed(text.skip(n));
        let rest = tokens_of(text.skip(n));
        let all = tokens_of(text);
        assert forall|i: int| 0 <= i < all.len() implies well_lexed(#[trigger] all[i]) by {
            if i > 0 {
                assert(all[i] == rest[i - 1]);
            }
        }
    } else {
        lemma_tokens_well_lexed(text.skip(1));
        let head = symbol_tokens(text[0]);
        let rest = tokens_of(text.skip(1));
        let all = tokens_of(text);
        assert forall|i: int| 0 <= i < all.len() implies well_lexed(#[trigger] all[i]) by {
            if i >= head.len() {
                assert(all[i] == rest[i - head.len()]);
            }
        }
    }
}

/// A character that no number holds separates what stands on its two sides: the
/// tokens of the whole are the tokens of the text before it, its own token if it
/// has one, and the tokens of the text behind it.
pub proof fn lemma_tokens_split(before: Seq<char>, c: char, after: Seq<char>)
    requires
        !is_literal_char(c),
    ensures
        tokens_of(before + seq![c] + after) == tokens_of(before) + symbol_tokens(c) + tokens_of(
            after,
        ),
    decreases before.len(),
{
    let text = before + seq![c] + after;
    if before.len() == 0 {
        assert(text.skip(1) =~= after);
        assert(tokens_of(before) + symbol_tokens(c) =~= symbol_tokens(c));
    } else if is_literal_char(before[0]) {
        let n = literal_run(before) as int;
        lemma_literal_run_bounds(before);
        let run = before.take(n);
        let rest = before.skip(n) + seq![c] + after;
        assert(text =~= run + rest);
        lemma_literal_run_of_prefix(run, rest);
        assert(text.take(n) =~= run);
        assert(text.skip(n) =~= rest);
        lemma_tokens_split(before.skip(n), c, after);
        assert(tokens_of(text) =~= tokens_of(before) + symbol_tokens(c) + tokens_of(after));
    } else {
        assert(text.skip(1) =~= before.skip(1) + seq![c] + after);
        lemma_tokens_split(before.skip(1), c, after);
        assert(tokens_of(text) =~= tokens_of(before) + symbol_tokens(c) + tokens_of(after));
    }
}

/// A space between two texts leaves no token and keeps their tokens apart.
pub proof fn lemma_space_separates(before: Seq<char>, after: Seq<char>)
    ensures
        tokens_of(before + seq![' '] + after) == tokens_of(before) + tokens_of(after),
{
    lemma_tokens_split(before, ' ', after);
    assert(tokens_of(before) + symbol_tokens(' ') =~= tokens_of(before));
}

/// Splits `text` into tokens.
///
/// Digits and decimal points gather into numbers; each of `+ - * /` and each
/// parenthesis is a token of its own and ends a number before it; a space or any
/// other character only ends the number before it. No text is refused.
pub fn tokenize(text: &str) -> (tokens: Vec<Token>)
    ensures
        tokens.deep_view() == tokens_of(text@),
        all_well_lexed(tokens.deep_view()),
{
    proof {
        lemma_tokens_well_lexed(text@);
    }
    let mut tokens: Vec<Token> = Vec::new();
    let mut pending = String::new();
    assert(tokens.deep_view() =~= Seq::<TokenView>::empty());
    assert(pending@ + text@.skip(0) =~= text@);
    for c in it: text.chars()
        invariant
            it.seq() == text@,
            all_literal_chars(pending@),
            tokens_of(text@) == tokens.deep_view() + tokens_of(pending@ + text@.skip(it.index())),
    {
        let ghost run = pending@;
        let ghost here = text@.skip(it.index());
        let ghost after = text@.skip(it.index() + 1);
        assert(here.len() > 0 && here[0] == c);
        assert(here.skip(1) =~= after);
        if is_literal_char(c) {
            pending.push(c);
            assert(pending@ + after =~= run + here);
        } else {
            let ghost emitted = tokens.deep_view();
            if pending.as_str().is_empty() {
                assert(run + here =~= here);
            } else {
                proof {
                    lemma_tokens_of_number_then(run, here);
                }
                tokens.push(Token::Number(pending));
                pending = String::new();
                assert(tokens.deep_view() =~= emitted + seq![TokenView::Number(run)]);
            }
            let ghost flushed = tokens.deep_view();
            if is_operator(c) {
                tokens.push(Token::Operator(c));
            } else if c == '(' {
                tokens.push(Token::LeftParen);
            } else if c == ')' {
                tokens.push(Token::RightParen);
            }
            assert(tokens.deep_view() =~= flushed + symbol_tokens(c));
            assert(pending@ + after =~= after);
            assert(tokens_of(text@) =~= tokens.deep_view() + tokens_of(after));
        }
    }
    let ghost run = pending@;
    let ghost emitted = tokens.deep_view();
    assert(text@.skip(text@.len() as int) =~= Seq::<char>::empty());
    assert(run + Seq::<char>::empty() =~= run);
    if !pending.as_str().is_empty() {
        proof {
            lemma_tokens_of_number_then(run, Seq::empty());
        }
        tokens.push(Token::Number(pending));
        assert(tokens.deep_view() =~= emitted + seq![TokenView::Number(run)]);
    }
    tokens
}

} // verus!
