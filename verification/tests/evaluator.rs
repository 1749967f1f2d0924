use hesapmakinesi::{
    evaluate, evaluate_postfix, to_postfix, tokenize, BinaryOp, EvaluationError, Expr, Operation,
    PostfixItem, Token,
};

/// The floating-point value of the arithmetic.
fn value(expr: &Expr) -> f64 {
    match expr {
        Expr::Number(text) => text.parse().expect("a numeric literal"),
        Expr::Negate(operand) => -value(operand),
        Expr::Binary(op, left, right) => {
            let (a, b) = (value(left), value(right));
            match op {
                BinaryOp::Add => a + b,
                BinaryOp::Subtract => a - b,
                BinaryOp::Multiply => a * b,
                BinaryOp::Divide => a / b,
            }
        }
    }
}

fn calculate(text: &str) -> Result<f64, EvaluationError> {
    evaluate(&tokenize(text)).map(|expr| value(&expr))
}

fn number(text: &str) -> Expr {
    Expr::Number(text.to_string())
}

fn binary(op: BinaryOp, left: Expr, right: Expr) -> Expr {
    Expr::Binary(op, Box::new(left), Box::new(right))
}

fn push(text: &str) -> PostfixItem {
    PostfixItem::Number(text.to_string())
}

fn apply(symbol: char) -> PostfixItem {
    PostfixItem::Apply(Operation::Binary(symbol))
}

#[test]
fn multiplication_before_addition() {
    assert_eq!(calculate("2+3*4"), Ok(14.0));
    assert_eq!(
        evaluate(&tokenize("2+3*4")),
        Ok(binary(
            BinaryOp::Add,
            number("2"),
            binary(BinaryOp::Multiply, number("3"), number("4"))
        ))
    );
}

#[test]
fn parentheses_group() {
    assert_eq!(calculate("(2+3)*4"), Ok(20.0));
    assert_eq!(calculate("2*(3+4)"), Ok(14.0));
    assert_eq!(calculate("((7))"), Ok(7.0));
    assert_eq!(calculate("(1+2)*(3+4)"), Ok(21.0));
}

#[test]
fn a_leading_minus_negates_all_that_follows() {
    assert_eq!(
        evaluate(&tokenize("-5+3")),
        Ok(Expr::Negate(Box::new(binary(
            BinaryOp::Add,
            number("5"),
            number("3")
        ))))
    );
    assert_eq!(calculate("-5+3"), Ok(-8.0));
    assert_eq!(calculate("(-5)+3"), Ok(-2.0));
    assert_eq!(calculate("-5"), Ok(-5.0));
}

#[test]
fn a_sign_reaches_to_the_closing_parenthesis() {
    assert_eq!(calculate("2*-3+4"), Ok(-14.0));
    assert_eq!(calculate("2*(-3)+4"), Ok(-2.0));
    assert_eq!(calculate("(-2*3)+10"), Ok(4.0));
}

#[test]
fn minus_after_minus_is_a_sign() {
    assert_eq!(calculate("5--3"), Ok(8.0));
    assert_eq!(
        evaluate(&tokenize("5--3")),
        Ok(binary(
            BinaryOp::Subtract,
            number("5"),
            Expr::Negate(Box::new(number("3")))
        ))
    );
}

#[test]
fn a_plus_sign_changes_nothing() {
    assert_eq!(evaluate(&tokenize("+5")), Ok(number("5")));
    assert_eq!(calculate("5-+3"), Ok(2.0));
    assert_eq!(calculate("5*+3"), Ok(15.0));
    assert_eq!(calculate("--5"), Ok(5.0));
}

#[test]
fn two_operators_of_which_the_second_is_no_sign() {
    assert_eq!(
        calculate("5+*3"),
        Err(EvaluationError::ConsecutiveOperators('+', '*'))
    );
    assert_eq!(
        calculate("5*/3"),
        Err(EvaluationError::ConsecutiveOperators('*', '/'))
    );
    assert_eq!(
        calculate("-*3"),
        Err(EvaluationError::ConsecutiveOperators('-', '*'))
    );
}

#[test]
fn division_by_zero_is_no_error() {
    assert_eq!(calculate("1/0"), Ok(f64::INFINITY));
    assert_eq!(calculate("(-1)/0"), Ok(f64::NEG_INFINITY));
    assert!(calculate("0/0").unwrap().is_nan());
}

#[test]
fn no_tokens_are_no_expression() {
    assert_eq!(calculate(""), Err(EvaluationError::InvalidExpression));
    assert_eq!(evaluate(&[]), Err(EvaluationError::InvalidExpression));
    assert_eq!(calculate("()"), Err(EvaluationError::InvalidExpression));
}

#[test]
fn two_values_without_an_operator() {
    assert_eq!(calculate("1 2"), Err(EvaluationError::InvalidExpression));
    assert_eq!(calculate("(1)(2)"), Err(EvaluationError::InvalidExpression));
}

#[test]
fn evaluating_again_gives_the_same() {
    for text in ["2+3*4", "5+*3", "", "(1", "1.2.3", "-(4/8)", "1 2"] {
        let tokens = tokenize(text);
        let first = evaluate(&tokens);
        let second = evaluate(&tokens);
        assert_eq!(first, second);
        assert_eq!(first, evaluate(&tokenize(text)));
    }
}

#[test]
fn well_formed_expressions_agree_with_the_arithmetic() {
    assert_eq!(calculate("1+2*3-4/5"), Ok(1.0 + 2.0 * 3.0 - 4.0 / 5.0));
    assert_eq!(calculate("10-4-3"), Ok(10.0 - 4.0 - 3.0));
    assert_eq!(calculate("100/10/5"), Ok(100.0 / 10.0 / 5.0));
    assert_eq!(calculate("2*3+4*5"), Ok(2.0 * 3.0 + 4.0 * 5.0));
    assert_eq!(calculate("2*(3+4)*5"), Ok(2.0 * (3.0 + 4.0) * 5.0));
    assert_eq!(calculate("8/(4-2)/(1+1)"), Ok(8.0 / (4.0 - 2.0) / (1.0 + 1.0)));
    assert_eq!(calculate("0.1+0.2"), Ok(0.1 + 0.2));
    assert_eq!(calculate("1.5*4"), Ok(6.0));
    assert_eq!(calculate("7-(2-(3-4))"), Ok(7.0 - (2.0 - (3.0 - 4.0))));
    assert_eq!(calculate("(-(2+3))*4"), Ok(-(2.0 + 3.0) * 4.0));
    assert_eq!(calculate("1/3"), Ok(1.0 / 3.0));
}

#[test]
fn equal_precedence_groups_to_the_left() {
    assert_eq!(
        evaluate(&tokenize("8-3-2")),
        Ok(binary(
            BinaryOp::Subtract,
            binary(BinaryOp::Subtract, number("8"), number("3")),
            number("2")
        ))
    );
    assert_eq!(calculate("8-3-2"), Ok(3.0));
    assert_eq!(calculate("8/4*2"), Ok(4.0));
}

#[test]
fn postfix_order_of_a_sum_of_products() {
    assert_eq!(
        to_postfix(&tokenize("2+3*4")),
        Ok(vec![push("2"), push("3"), push("4"), apply('*'), apply('+')])
    );
    assert_eq!(
        to_postfix(&tokenize("2*3+4")),
        Ok(vec![push("2"), push("3"), apply('*'), push("4"), apply('+')])
    );
    assert_eq!(
        to_postfix(&tokenize("(2+3)*4")),
        Ok(vec![push("2"), push("3"), apply('+'), push("4"), apply('*')])
    );
}

#[test]
fn postfix_order_of_signs() {
    assert_eq!(
        to_postfix(&tokenize("-5+3")),
        Ok(vec![
            push("5"),
            push("3"),
            apply('+'),
            PostfixItem::Apply(Operation::Negate),
        ])
    );
    assert_eq!(
        to_postfix(&tokenize("5-+3")),
        Ok(vec![
            push("5"),
            push("3"),
            PostfixItem::Apply(Operation::Keep),
            apply('-'),
        ])
    );
    assert_eq!(to_postfix(&[]), Ok(vec![]));
}

#[test]
fn an_opening_parenthesis_left_open() {
    assert_eq!(calculate("(1+2"), Err(EvaluationError::MismatchedParentheses));
    assert_eq!(calculate("("), Err(EvaluationError::MismatchedParentheses));
    assert_eq!(calculate("((1)"), Err(EvaluationError::MismatchedParentheses));
    assert_eq!(
        to_postfix(&tokenize("2*(3")),
        Err(EvaluationError::MismatchedParentheses)
    );
}

#[test]
fn a_closing_parenthesis_without_an_opening_one() {
    assert_eq!(calculate("1+2)"), Err(EvaluationError::MismatchedParentheses));
    assert_eq!(calculate(")"), Err(EvaluationError::MismatchedParentheses));
    assert_eq!(calculate(")("), Err(EvaluationError::MismatchedParentheses));
    assert_eq!(calculate("(1))+(2"), Err(EvaluationError::MismatchedParentheses));
}

#[test]
fn an_error_of_a_token_comes_before_unpaired_parentheses() {
    assert_eq!(
        calculate("1)+*2"),
        Err(EvaluationError::ConsecutiveOperators('+', '*'))
    );
    assert_eq!(
        evaluate(&[Token::LeftParen, Token::Operator('%')]),
        Err(EvaluationError::UnexpectedToken(Token::Operator('%')))
    );
}

#[test]
fn an_operator_that_is_none_of_the_four() {
    let tokens = vec![
        Token::Number("2".to_string()),
        Token::Operator('^'),
        Token::Number("3".to_string()),
    ];
    assert_eq!(
        evaluate(&tokens),
        Err(EvaluationError::UnexpectedToken(Token::Operator('^')))
    );
    assert_eq!(
        to_postfix(&tokens),
        Err(EvaluationError::UnexpectedToken(Token::Operator('^')))
    );
}

#[test]
fn an_operator_without_operands() {
    assert_eq!(calculate("*"), Err(EvaluationError::MissingOperand));
    assert_eq!(calculate("-"), Err(EvaluationError::MissingOperand));
    assert_eq!(calculate("+"), Err(EvaluationError::MissingOperand));
    assert_eq!(calculate("5*"), Err(EvaluationError::MissingOperand));
    assert_eq!(calculate("*5"), Err(EvaluationError::MissingOperand));
    assert_eq!(calculate("5-"), Err(EvaluationError::MissingOperand));
    assert_eq!(calculate("(+)"), Err(EvaluationError::MissingOperand));
}

#[test]
fn a_number_with_two_decimal_points() {
    assert_eq!(
        calculate("1.2.3"),
        Err(EvaluationError::MalformedNumber("1.2.3".to_string()))
    );
    assert_eq!(
        calculate("1+."),
        Err(EvaluationError::MalformedNumber(".".to_string()))
    );
    assert_eq!(
        evaluate(&[Token::Number(String::new())]),
        Err(EvaluationError::MalformedNumber(String::new()))
    );
}

#[test]
fn the_first_failing_step_decides() {
    assert_eq!(calculate("*2+1.2.3"), Err(EvaluationError::MissingOperand));
    assert_eq!(
        calculate("1.2.3+*2"),
        Err(EvaluationError::ConsecutiveOperators('+', '*'))
    );
    assert_eq!(
        calculate("(1.2.3"),
        Err(EvaluationError::MismatchedParentheses)
    );
    assert_eq!(
        calculate("1.2.3 4"),
        Err(EvaluationError::MalformedNumber("1.2.3".to_string()))
    );
}

#[test]
fn number_tokens_are_read_as_float_literals() {
    assert_eq!(
        evaluate(&[Token::Number("1e3".to_string())]).map(|e| value(&e)),
        Ok(1000.0)
    );
    assert_eq!(
        evaluate(&[Token::Number("-2.5".to_string())]).map(|e| value(&e)),
        Ok(-2.5)
    );
    assert_eq!(
        evaluate(&[Token::Number("inf".to_string())]).map(|e| value(&e)),
        Ok(f64::INFINITY)
    );
}

#[test]
fn running_a_postfix_order() {
    assert_eq!(
        evaluate_postfix(&[push("6"), push("2"), apply('/')]),
        Ok(binary(BinaryOp::Divide, number("6"), number("2")))
    );
    assert_eq!(
        evaluate_postfix(&[push("6"), push("2"), apply('-')]).map(|e| value(&e)),
        Ok(4.0)
    );
    assert_eq!(
        evaluate_postfix(&[push("6"), PostfixItem::Apply(Operation::Negate)]),
        Ok(Expr::Negate(Box::new(number("6"))))
    );
    assert_eq!(
        evaluate_postfix(&[push("6"), PostfixItem::Apply(Operation::Keep)]),
        Ok(number("6"))
    );
}

#[test]
fn running_a_postfix_order_that_fails() {
    assert_eq!(
        evaluate_postfix(&[push("1"), push("2"), apply('^')]),
        Err(EvaluationError::UnknownOperator('^'))
    );
    assert_eq!(
        evaluate_postfix(&[apply('^')]),
        Err(EvaluationError::UnknownOperator('^'))
    );
    assert_eq!(
        evaluate_postfix(&[push("1"), apply('+')]),
        Err(EvaluationError::MissingOperand)
    );
    assert_eq!(
        evaluate_postfix(&[PostfixItem::Apply(Operation::Negate)]),
        Err(EvaluationError::MissingOperand)
    );
    assert_eq!(
        evaluate_postfix(&[PostfixItem::Apply(Operation::Keep)]),
        Err(EvaluationError::MissingOperand)
    );
    assert_eq!(
        evaluate_postfix(&[push("1"), push("2")]),
        Err(EvaluationError::InvalidExpression)
    );
    assert_eq!(evaluate_postfix(&[]), Err(EvaluationError::InvalidExpression));
    assert_eq!(
        evaluate_postfix(&[push("1"), push("x"), apply('+')]),
        Err(EvaluationError::MalformedNumber("x".to_string()))
    );
}

#[test]
fn trees_are_cloned_faithfully() {
    let tree = evaluate(&tokenize("-(1+2)*3")).unwrap();
    assert_eq!(tree.clone(), tree);
}

#[test]
fn written_expressions_come_back() {
    let negated_sum = Expr::Negate(Box::new(binary(BinaryOp::Add, number("2"), number("3"))));
    let cases = [
        ("7", number("7")),
        ("(-5)", Expr::Negate(Box::new(number("5")))),
        (
            "8-(3-2)",
            binary(
                BinaryOp::Subtract,
                number("8"),
                binary(BinaryOp::Subtract, number("3"), number("2")),
            ),
        ),
        (
            "(1+2)*3",
            binary(
                BinaryOp::Multiply,
                binary(BinaryOp::Add, number("1"), number("2")),
                number("3"),
            ),
        ),
        (
            "1+2*3",
            binary(
                BinaryOp::Add,
                number("1"),
                binary(BinaryOp::Multiply, number("2"), number("3")),
            ),
        ),
        (
            "2/(3/4)",
            binary(
                BinaryOp::Divide,
                number("2"),
                binary(BinaryOp::Divide, number("3"), number("4")),
            ),
        ),
        ("(-(2+3))*4", binary(BinaryOp::Multiply, negated_sum, number("4"))),
    ];
    for (text, tree) in cases {
        assert_eq!(evaluate(&tokenize(text)), Ok(tree), "on {:?}", text);
    }
}

#[test]
fn a_leading_plus_leaves_the_expression() {
    assert_eq!(
        evaluate(&tokenize("+5+3")),
        Ok(binary(BinaryOp::Add, number("5"), number("3")))
    );
    assert_eq!(calculate("+5+3"), Ok(8.0));
}

#[test]
fn the_leaves_of_a_result_parse_as_floats() {
    fn leaves(expr: &Expr, out: &mut Vec<String>) {
        match expr {
            Expr::Number(text) => out.push(text.clone()),
            Expr::Negate(operand) => leaves(operand, out),
            Expr::Binary(_, left, right) => {
                leaves(left, out);
                leaves(right, out);
            }
        }
    }
    for text in ["1+2", "5.*.5", "(-3)/4", "1.5-2.25*(3+0.125)"] {
        let tree = evaluate(&tokenize(text)).unwrap();
        let mut found = Vec::new();
        leaves(&tree, &mut found);
        assert!(!found.is_empty());
        for leaf in found {
            assert!(leaf.parse::<f64>().is_ok());
        }
    }
}
