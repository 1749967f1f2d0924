use hesapmakinesi::{evaluate, tokenize, EvaluationError, Token};

#[test]
fn message_of_consecutive_operators() {
    assert_eq!(
        EvaluationError::ConsecutiveOperators('+', '*').message(),
        "İki operatör arka arkaya: + *"
    );
    assert_eq!(
        evaluate(&tokenize("5+*3")).unwrap_err().message(),
        "İki operatör arka arkaya: + *"
    );
}

#[test]
fn message_of_an_unexpected_token() {
    assert_eq!(
        EvaluationError::UnexpectedToken(Token::Operator('^')).message(),
        "Beklenmeyen token: ^"
    );
    assert_eq!(
        EvaluationError::UnexpectedToken(Token::Number("1.5".to_string())).message(),
        "Beklenmeyen token: 1.5"
    );
    assert_eq!(
        EvaluationError::UnexpectedToken(Token::LeftParen).message(),
        "Beklenmeyen token: ("
    );
    assert_eq!(
        EvaluationError::UnexpectedToken(Token::RightParen).message(),
        "Beklenmeyen token: )"
    );
}

#[test]
fn messages_without_details() {
    assert_eq!(
        EvaluationError::MismatchedParentheses.message(),
        "Parantez uyumsuzluğu!"
    );
    assert_eq!(EvaluationError::MissingOperand.message(), "Eksik operand!");
    assert_eq!(
        EvaluationError::InvalidExpression.message(),
        "Geçersiz ifade veya eksik operand!"
    );
}

#[test]
fn message_of_an_unknown_operator() {
    assert_eq!(
        EvaluationError::UnknownOperator('^').message(),
        "Bilinmeyen operatör: ^"
    );
}

#[test]
fn message_of_a_malformed_number() {
    assert_eq!(
        EvaluationError::MalformedNumber("1.2.3".to_string()).message(),
        "Geçersiz sayı: 1.2.3"
    );
    assert_eq!(
        evaluate(&tokenize("1.2.3")).unwrap_err().message(),
        "Geçersiz sayı: 1.2.3"
    );
}
