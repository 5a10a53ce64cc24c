use calculator::{evaluate, is_operator, precedence, to_postfix, StringSubscription};
use std::str::FromStr;

fn number(digits: &str) -> f64 {
    f64::from_str(digits).unwrap()
}

fn calculate(s: String) -> f64 {
    calculator::calculate(s, number, evaluate)
}

#[test]
fn test_string_subscription() {
    let my_str: String = "abc123".to_string();

    assert_eq!(my_str.ch(0), 'a');
    assert_eq!(my_str.ch(1), 'b');
    assert_eq!(my_str.ch(2), 'c');
    assert_eq!(my_str.ch(3), '1');
    assert_eq!(my_str.ch(4), '2');
    assert_eq!(my_str.ch(5), '3');
}

#[test]
fn test_is_operator() {
    assert_eq!(is_operator('+'), true);
    assert_eq!(is_operator('-'), true);
    assert_eq!(is_operator('*'), true);
    assert_eq!(is_operator('/'), true);
    assert_eq!(is_operator('a'), false);
    assert_eq!(is_operator('1'), false);
    assert_eq!(is_operator('&'), false);
}

#[test]
fn test_precedence() {
    assert!(precedence('*') > precedence('+'));
    assert!(precedence('/') > precedence('+'));
    assert!(precedence('*') > precedence('-'));
    assert!(precedence('/') > precedence('-'));
    assert!(precedence('/') == precedence('*'));
    assert!(precedence('-') == precedence('-'));
}

#[test]
fn test_to_postfix() {
    assert_eq!(to_postfix("1+1".to_string()), "1 1 +".to_string());
    assert_eq!(to_postfix("5+5-1".to_string()), "5 5 + 1 -".to_string());
    assert_eq!(to_postfix("-1+5".to_string()), "0 1 - 5 +".to_string());
    assert_eq!(to_postfix("-1".to_string()), "0 1 -".to_string());
    assert_eq!(to_postfix("2*2/3-1+3".to_string()), "2 2 * 3 / 1 - 3 +".to_string());
    assert_eq!(to_postfix("0*3/4*2".to_string()), "0 3 * 4 / 2 *".to_string());
}

#[test]
fn test_evaluate() {
    assert_eq!(evaluate(5.0, 5.0, '+'), 10.0);
    assert_eq!(evaluate(5.0, 15.0, '-'), -10.0);
    assert_eq!(evaluate(5.0, 5.0, '*'), 25.0);
    assert_eq!(evaluate(5.0, 5.0, '/'), 1.0);
    assert_eq!(evaluate(5.0, 5.0, '-'), 0.0);
    assert_eq!(evaluate(23030.0, 93939.0, '+'), 116969.0);
}

#[test]
fn test_calculate() {
    assert_eq!(calculate("5+5".to_string()), 10.0);
    assert_eq!(calculate("5-5".to_string()), 0.0);
    assert_eq!(calculate("5-10".to_string()), -5.0);
    assert_eq!(calculate("5*5".to_string()), 25.0);
    assert_eq!(calculate("5/5".to_string()), 1.0);
    assert_eq!(calculate("-5*2".to_string()), -10.0);
    assert_eq!(calculate("-5*2".to_string()), -10.0);
    assert_eq!(calculate("5+5+5+5".to_string()), 20.0);
    assert_eq!(calculate("5+5-5+5+5+5-5-5-5-5".to_string()), 0.0);
    assert_eq!(calculate("5*4/2+10-5".to_string()), 15.0);
    assert_eq!(calculate("5/2".to_string()), 2.5);
    assert_eq!(calculate("5+5-2-2+5*2*2*4-4/5+6".to_string()), 91.2);
    assert_eq!(calculate("5+5*2-2/4".to_string()), 14.5);
    assert_eq!(
        calculate("578873873*322/2222+32932-323232-222+28032".to_string()),
        83624722.9189919
    );
    assert_eq!(calculate("0".to_string()), 0.0);
    assert_eq!(calculate("1".to_string()), 1.0);
    assert_eq!(calculate("-1".to_string()), -1.0);
}
