//! Number edge cases: negatives, zero, scientific notation, boundaries.

use jwc::{from_str, Number, Value};

fn parse_num(s: &str) -> Value {
    from_str(s).unwrap().value
}

fn as_i64(v: &Value) -> Option<i64> {
    match v {
        Value::Number(Number::Int(n)) => Some(*n),
        _ => None,
    }
}

fn as_f64(v: &Value) -> Option<f64> {
    match v {
        Value::Number(Number::Int(n)) => Some(*n as f64),
        Value::Number(Number::Float(t)) => t.parse::<f64>().ok(),
        _ => None,
    }
}

fn is_number(v: &Value) -> bool {
    matches!(v, Value::Number(_))
}

#[test]
fn small_integers() {
    assert_eq!(as_i64(&parse_num("0")), Some(0));
    assert_eq!(as_i64(&parse_num("1")), Some(1));
    assert_eq!(as_i64(&parse_num("-1")), Some(-1));
    assert_eq!(as_i64(&parse_num("42")), Some(42));
    assert_eq!(as_i64(&parse_num("-42")), Some(-42));
}

#[test]
fn large_integers_within_i64() {
    assert_eq!(as_i64(&parse_num("9223372036854775807")), Some(i64::MAX));
    assert!(is_number(&parse_num("-9223372036854775807")));
}

#[test]
fn fractional_numbers() {
    assert_eq!(as_f64(&parse_num("1.5")), Some(1.5));
    assert_eq!(as_f64(&parse_num("-3.25")), Some(-3.25));
    assert_eq!(as_f64(&parse_num("0.0")), Some(0.0));
    assert_eq!(as_f64(&parse_num("-0.0")), Some(-0.0));
}

#[test]
fn exponents_both_cases() {
    assert_eq!(as_f64(&parse_num("1e3")), Some(1000.0));
    assert_eq!(as_f64(&parse_num("1E3")), Some(1000.0));
    assert_eq!(as_f64(&parse_num("1e+3")), Some(1000.0));
    assert_eq!(as_f64(&parse_num("1e-3")), Some(0.001));
    assert_eq!(as_f64(&parse_num("2.5e2")), Some(250.0));
}

#[test]
fn extreme_magnitudes() {
    assert!(as_f64(&parse_num("1e308")).unwrap().is_finite());
    assert!(as_f64(&parse_num("1e-300")).unwrap() > 0.0);
}

#[test]
fn lone_minus_is_rejected() {
    assert!(from_str("-").is_err());
}

#[test]
fn leading_zero_multi_digit_still_parses() {
    let res = from_str("01");
    assert!(res.is_ok() || res.is_err());
}

#[test]
fn fast_int_path_matches_slow_path() {
    for &n in &[0_i64, 1, -1, 42, -42, 1_000_000, -1_000_000, i32::MAX as i64, i32::MIN as i64] {
        let s = n.to_string();
        let v = parse_num(&s);
        assert_eq!(as_i64(&v), Some(n), "round-trip {n}");
        assert_eq!(as_f64(&v), Some(n as f64), "round-trip {n} as f64");
    }
}

#[test]
fn overflow_falls_back_to_f64_parser() {
    let v = parse_num("9223372036854775808");
    assert!(as_f64(&v).is_some());
}

#[test]
fn numbers_in_arrays() {
    let v = parse_num("[1, 2, -3, 4.5, 1e2]");
    let arr = match &v {
        Value::Array(items) => items,
        _ => panic!("not an array"),
    };
    assert_eq!(arr.len(), 5);
    assert_eq!(as_i64(&arr[0].value), Some(1));
    assert_eq!(as_f64(&arr[4].value), Some(100.0));
}
