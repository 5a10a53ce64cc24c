use calculator::operators::is_digit;
use calculator::{
    calculate, evaluate, precedence, to_postfix, try_calculate, validate, ParseError,
};
use std::str::FromStr;

fn float(digits: &str) -> f64 {
    f64::from_str(digits).unwrap()
}

fn worth(s: &str) -> f64 {
    calculate(s.to_string(), float, evaluate)
}

fn whole(s: &str) -> i64 {
    calculate(s.to_string(), |digits: &str| i64::from_str(digits).unwrap(), evaluate)
}

fn bracketed(s: &str) -> String {
    calculate(
        s.to_string(),
        |digits: &str| digits.to_string(),
        |x: String, y: String, c: char| format!("({}{}{})", x, c, y),
    )
}

#[test]
fn precedence_table() {
    assert_eq!(precedence('+'), 1);
    assert_eq!(precedence('-'), 1);
    assert_eq!(precedence('*'), 2);
    assert_eq!(precedence('/'), 2);
    assert_eq!(precedence('x'), -1);
    assert_eq!(precedence('1'), -1);
    assert_eq!(precedence(' '), -1);
}

#[test]
fn digits_are_zero_to_nine() {
    assert!(is_digit('0'));
    assert!(is_digit('5'));
    assert!(is_digit('9'));
    assert!(!is_digit('/'));
    assert!(!is_digit(':'));
    assert!(!is_digit(' '));
    assert!(!is_digit('a'));
}

#[test]
fn validate_accepts_expressions() {
    assert_eq!(validate("0"), Ok(()));
    assert_eq!(validate("12"), Ok(()));
    assert_eq!(validate("1+1"), Ok(()));
    assert_eq!(validate("-1"), Ok(()));
    assert_eq!(validate("-1+5"), Ok(()));
    assert_eq!(validate("2*2/3-1+3"), Ok(()));
    assert_eq!(validate("578873873*322/2222+32932-323232-222+28032"), Ok(()));
}

#[test]
fn validate_rejects_empty_text() {
    assert_eq!(validate(""), Err(ParseError::EmptyExpression));
}

#[test]
fn validate_rejects_foreign_characters() {
    assert_eq!(validate("1 + 1"), Err(ParseError::UnexpectedCharacter));
    assert_eq!(validate("a"), Err(ParseError::UnexpectedCharacter));
    assert_eq!(validate("1+x"), Err(ParseError::UnexpectedCharacter));
    assert_eq!(validate("(1+2)"), Err(ParseError::UnexpectedCharacter));
    assert_eq!(validate("1.5"), Err(ParseError::UnexpectedCharacter));
    assert_eq!(validate("+\u{e9}"), Err(ParseError::UnexpectedCharacter));
    assert_eq!(validate("1\u{663}"), Err(ParseError::UnexpectedCharacter));
}

#[test]
fn validate_rejects_misplaced_operators() {
    assert_eq!(validate("-"), Err(ParseError::UnbalancedOperators));
    assert_eq!(validate("+1"), Err(ParseError::UnbalancedOperators));
    assert_eq!(validate("*1"), Err(ParseError::UnbalancedOperators));
    assert_eq!(validate("1+"), Err(ParseError::UnbalancedOperators));
    assert_eq!(validate("1++2"), Err(ParseError::UnbalancedOperators));
    assert_eq!(validate("--1"), Err(ParseError::UnbalancedOperators));
    assert_eq!(validate("5*-2"), Err(ParseError::UnbalancedOperators));
    assert_eq!(validate("-5+10*-5"), Err(ParseError::UnbalancedOperators));
}

#[test]
fn postfix_of_a_single_numeral() {
    assert_eq!(to_postfix("5".to_string()), "5 ".to_string());
    assert_eq!(to_postfix("1234567890".to_string()), "1234567890 ".to_string());
}

#[test]
fn postfix_keeps_long_numerals_whole() {
    assert_eq!(to_postfix("12+345*6789".to_string()), "12 345 6789 * +".to_string());
}

#[test]
fn postfix_writes_operators_held_back_to_the_end_apart() {
    assert_eq!(to_postfix("1+2*3".to_string()), "1 2 3 * +".to_string());
    assert_eq!(to_postfix("-1-2/3".to_string()), "0 1 - 2 3 / -".to_string());
}

#[test]
fn postfix_applies_tighter_operators_first() {
    assert_eq!(to_postfix("1*2+3".to_string()), "1 2 * 3 +".to_string());
    assert_eq!(to_postfix("1+2*3-4".to_string()), "1 2 3 * + 4 -".to_string());
    assert_eq!(to_postfix("1+2*3/4-5".to_string()), "1 2 3 * 4 / + 5 -".to_string());
}

#[test]
fn postfix_rewrites_a_leading_minus() {
    assert_eq!(to_postfix("-1+5".to_string()), "0 1 - 5 +".to_string());
    assert_eq!(to_postfix("-7".to_string()), "0 7 -".to_string());
    assert_eq!(worth("-1"), -1.0);
    assert_eq!(worth("-5*2"), -10.0);
}

#[test]
fn equal_operators_go_left_to_right() {
    assert_eq!(worth("5-5-5"), -5.0);
    assert_eq!(worth("20/2/2"), 5.0);
    assert_eq!(bracketed("5-5-5"), "((5-5)-5)");
    assert_eq!(bracketed("20/2/2"), "((20/2)/2)");
    assert_eq!(bracketed("8/4*2"), "((8/4)*2)");
}

#[test]
fn tighter_operators_go_first() {
    assert_eq!(worth("5+5*2"), 15.0);
    assert_eq!(worth("5-20/2"), -5.0);
    assert_eq!(bracketed("5+5*2"), "(5+(5*2))");
    assert_eq!(bracketed("5*5+2"), "((5*5)+2)");
    assert_eq!(bracketed("1+2*3-4"), "((1+(2*3))-4)");
    assert_eq!(bracketed("1-2*3/4+5"), "((1-((2*3)/4))+5)");
}

#[test]
fn expression_is_read_as_written() {
    assert_eq!(bracketed("7"), "7");
    assert_eq!(bracketed("-7"), "(0-7)");
    assert_eq!(bracketed("-1+5"), "((0-1)+5)");
    assert_eq!(bracketed("007"), "007");
    assert_eq!(
        bracketed("578873873*322/2222+32932-323232-222+28032"),
        "((((((578873873*322)/2222)+32932)-323232)-222)+28032)"
    );
}

#[test]
fn chained_operators() {
    assert_eq!(worth("5+5-5+5+5+5-5-5-5-5"), 0.0);
    assert_eq!(whole("5+5-5+5+5+5-5-5-5-5"), 0);
}

#[test]
fn large_numerals() {
    let got = worth("578873873*322/2222+32932-323232-222+28032");
    assert!((got - 83624722.9189919).abs() < 1e-6);
}

#[test]
fn single_literals() {
    assert_eq!(worth("0"), 0.0);
    assert_eq!(worth("1"), 1.0);
    assert_eq!(whole("42"), 42);
}

#[test]
fn calculate_matches_plain_arithmetic() {
    assert_eq!(whole("2+3*4"), 2 + 3 * 4);
    assert_eq!(whole("2*3+4"), 2 * 3 + 4);
    assert_eq!(whole("100-7*8/2+6"), 100 - 7 * 8 / 2 + 6);
    assert_eq!(whole("9/2*2"), 9 / 2 * 2);
    assert_eq!(whole("-3+10"), 0 - 3 + 10);
    assert_eq!(worth("5/2"), 5.0 / 2.0);
    assert_eq!(worth("1+2/4-3*5"), 1.0 + 2.0 / 4.0 - 3.0 * 5.0);
}

#[test]
fn evaluate_knows_left_from_right() {
    assert_eq!(evaluate(5.0, 10.0, '-'), -5.0);
    assert_eq!(evaluate(0.0, -5.0, '-'), 5.0);
    assert_eq!(evaluate(1.0, 4.0, '/'), 0.25);
    assert_eq!(evaluate(7i64, 2i64, '-'), 5);
    assert_eq!(evaluate(7i64, 2i64, '/'), 3);
}

#[test]
fn evaluate_answers_the_default_for_other_characters() {
    assert_eq!(evaluate(5.0, 5.0, 'x'), 0.0);
    assert_eq!(evaluate(5.0, 5.0, ' '), 0.0);
    assert_eq!(evaluate(3i64, 4i64, '^'), 0);
}

#[test]
fn division_by_zero_is_no_error() {
    assert_eq!(evaluate(1.0, 0.0, '/'), f64::INFINITY);
    assert_eq!(evaluate(-1.0, 0.0, '/'), f64::NEG_INFINITY);
    assert!(evaluate(0.0f64, 0.0f64, '/').is_nan());
    assert_eq!(worth("5/0"), f64::INFINITY);
    assert_eq!(worth("-5/0"), f64::NEG_INFINITY);
    assert!(worth("0/0").is_nan());
}

#[test]
fn try_calculate_answers_for_expressions() {
    assert_eq!(try_calculate("5+5*2".to_string(), float, evaluate), Ok(15.0));
    assert_eq!(try_calculate("-1".to_string(), float, evaluate), Ok(-1.0));
    assert_eq!(try_calculate("20/2/2".to_string(), float, evaluate), Ok(5.0));
}

#[test]
fn try_calculate_says_what_is_wrong() {
    assert_eq!(
        try_calculate("".to_string(), float, evaluate),
        Err(ParseError::EmptyExpression)
    );
    assert_eq!(
        try_calculate("2x3".to_string(), float, evaluate),
        Err(ParseError::UnexpectedCharacter)
    );
    assert_eq!(
        try_calculate("5*-2".to_string(), float, evaluate),
        Err(ParseError::UnbalancedOperators)
    );
    assert_eq!(
        try_calculate("1+".to_string(), float, evaluate),
        Err(ParseError::UnbalancedOperators)
    );
}

#[test]
fn foreign_characters_are_named_before_misplaced_operators() {
    assert_eq!(validate("+1a"), Err(ParseError::UnexpectedCharacter));
    assert_eq!(validate("1++a"), Err(ParseError::UnexpectedCharacter));
}

#[test]
fn numerals_reach_the_reader_whole() {
    let seen = calculate(
        "12+0034*5".to_string(),
        |digits: &str| vec![digits.to_string()],
        |mut x: Vec<String>, mut y: Vec<String>, _c: char| {
            x.append(&mut y);
            x
        },
    );
    assert_eq!(seen, vec!["12".to_string(), "0034".to_string(), "5".to_string()]);
}
