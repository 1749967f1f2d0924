use hesapmakinesi::{is_literal_char, is_number_literal, is_operator, is_sign, precedence};

const SAMPLES: [&str; 64] = [
    "", "0", "7", "12", "3.14", "5.", ".5", "0.5", ".", "..", "1.2.3", "1..", "..1", "+", "-",
    "+1", "-1", "+-1", "--1", "-.5", "-5.", "-.", "1e5", "1E5", "1e+5", "1e-5", "1e", "1e+",
    "1e-", "e5", ".e5", "1.e5", ".1e5", "1e5.", "1e5e5", "1e5+", "2.5E10", "2.5e-10", "inf",
    "INF", "Inf", "iNf", "-inf", "+inf", "infinity", "INFINITY", "Infinity", "+infinity",
    "-Infinity", "nan", "NaN", "NAN", "-nan", "in", "infi", "infinit", "infinityy", "nann",
    " 1", "1 ", "1_000", "0x10", "1,5", "١",
];

#[test]
fn literals_are_those_that_parse_as_floats() {
    for text in SAMPLES {
        assert_eq!(
            is_number_literal(text),
            text.parse::<f64>().is_ok(),
            "on {:?}",
            text
        );
    }
}

#[test]
fn plain_decimals_are_literals() {
    assert!(is_number_literal("12"));
    assert!(is_number_literal("3.14"));
    assert!(is_number_literal("5."));
    assert!(is_number_literal(".5"));
}

#[test]
fn two_decimal_points_are_no_literal() {
    assert!(!is_number_literal("1.2.3"));
    assert!(!is_number_literal(".."));
    assert!(!is_number_literal("."));
    assert!(!is_number_literal(""));
}

#[test]
fn exponents_need_digits() {
    assert!(is_number_literal("1e5"));
    assert!(is_number_literal("1E-5"));
    assert!(!is_number_literal("1e"));
    assert!(!is_number_literal("1e+"));
    assert!(!is_number_literal("e5"));
}

#[test]
fn special_values_in_either_case() {
    assert!(is_number_literal("inf"));
    assert!(is_number_literal("-Infinity"));
    assert!(is_number_literal("NaN"));
    assert!(!is_number_literal("infinit"));
    assert!(!is_number_literal("nano"));
}

#[test]
fn character_classes() {
    for c in ['+', '-', '*', '/'] {
        assert!(is_operator(c));
        assert!(!is_literal_char(c));
    }
    for c in ['(', ')', ' ', '^', 'x', '.', '0'] {
        assert!(!is_operator(c));
    }
    assert!(is_sign('+'));
    assert!(is_sign('-'));
    assert!(!is_sign('*'));
    assert!(!is_sign('/'));
    for c in ['0', '1', '5', '9', '.'] {
        assert!(is_literal_char(c));
    }
    for c in ['/', ':', ',', 'e', ' '] {
        assert!(!is_literal_char(c));
    }
}

#[test]
fn precedence_levels() {
    assert_eq!(precedence('+'), 1);
    assert_eq!(precedence('-'), 1);
    assert_eq!(precedence('*'), 2);
    assert_eq!(precedence('/'), 2);
    assert_eq!(precedence('('), 0);
    assert_eq!(precedence('^'), 0);
}
