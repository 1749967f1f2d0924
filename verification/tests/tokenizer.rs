use hesapmakinesi::{tokenize, Token};

fn number(text: &str) -> Token {
    Token::Number(text.to_string())
}

#[test]
fn digits_and_an_operator() {
    assert_eq!(
        tokenize("12+3"),
        vec![number("12"), Token::Operator('+'), number("3")]
    );
}

#[test]
fn spaces_separate_and_leave_no_token() {
    assert_eq!(
        tokenize("1 + 2"),
        vec![number("1"), Token::Operator('+'), number("2")]
    );
}

#[test]
fn a_space_ends_a_number() {
    assert_eq!(tokenize("1 2"), vec![number("1"), number("2")]);
}

#[test]
fn empty_text_has_no_tokens() {
    assert_eq!(tokenize(""), Vec::<Token>::new());
    assert_eq!(tokenize("   "), Vec::<Token>::new());
}

#[test]
fn all_four_operators() {
    assert_eq!(
        tokenize("+-*/"),
        vec![
            Token::Operator('+'),
            Token::Operator('-'),
            Token::Operator('*'),
            Token::Operator('/'),
        ]
    );
}

#[test]
fn parentheses_are_tokens() {
    assert_eq!(
        tokenize("(2+3)*4"),
        vec![
            Token::LeftParen,
            number("2"),
            Token::Operator('+'),
            number("3"),
            Token::RightParen,
            Token::Operator('*'),
            number("4"),
        ]
    );
}

#[test]
fn decimal_points_stay_in_the_number() {
    assert_eq!(tokenize("3.14"), vec![number("3.14")]);
    assert_eq!(tokenize(".5+5."), vec![number(".5"), Token::Operator('+'), number("5.")]);
}

#[test]
fn several_decimal_points_are_not_refused() {
    assert_eq!(tokenize("1.2.3"), vec![number("1.2.3")]);
    assert_eq!(tokenize(".."), vec![number("..")]);
}

#[test]
fn other_characters_are_dropped_and_end_a_number() {
    assert_eq!(tokenize("1a2"), vec![number("1"), number("2")]);
    assert_eq!(tokenize("x"), Vec::<Token>::new());
    assert_eq!(tokenize("2^3"), vec![number("2"), number("3")]);
    assert_eq!(tokenize("1e5"), vec![number("1"), number("5")]);
    assert_eq!(tokenize("7\u{00d7}8"), vec![number("7"), number("8")]);
}

#[test]
fn a_number_at_the_end_is_flushed() {
    assert_eq!(tokenize("1+22"), vec![number("1"), Token::Operator('+'), number("22")]);
    assert_eq!(tokenize("9"), vec![number("9")]);
}

#[test]
fn no_number_token_is_empty() {
    for text in ["", "+", "1+2", " 1 ", "((", "1..2 3", "a.b", "--5", "12*(3+4)/5"] {
        for token in tokenize(text) {
            if let Token::Number(digits) = token {
                assert!(!digits.is_empty());
                assert!(digits.chars().all(|c| c.is_ascii_digit() || c == '.'));
            }
        }
    }
}

#[test]
fn tokens_are_cloned_faithfully() {
    let tokens = tokenize("(1.5+2)");
    let copies: Vec<Token> = tokens.iter().map(|t| t.clone()).collect();
    assert_eq!(tokens, copies);
}

#[test]
fn a_separator_splits_the_tokens() {
    for (before, after) in [("12", "34"), ("1+", "2"), ("", "5"), ("5", ""), ("(1", "2)")] {
        let mut expected = tokenize(before);
        expected.extend(tokenize(after));
        assert_eq!(tokenize(&format!("{} {}", before, after)), expected);
        assert_eq!(tokenize(&format!("{}x{}", before, after)), expected);
    }
    let mut expected = tokenize("12");
    expected.push(Token::Operator('*'));
    expected.extend(tokenize("34"));
    assert_eq!(tokenize("12*34"), expected);
}
