//! Untrusted input: depth, duplicate keys, number grammar, whitespace,
//! error messages.

use jwc::{Error, Node, Number, ObjectEntry, Value};

fn nested(depth: usize) -> String {
    format!("{}{}", "[".repeat(depth), "]".repeat(depth))
}

fn position(err: &Error) -> (usize, usize) {
    match err {
        Error::Parse { line, col, .. } => (*line, *col),
        other => panic!("expected a parse error, got {other:?}"),
    }
}

#[test]
fn nesting_is_capped_instead_of_overflowing_the_stack() {
    assert!(jwc::from_str(&nested(128)).is_ok());
    let err = jwc::from_str(&nested(129)).unwrap_err();
    assert!(matches!(err, Error::Parse { ref msg, .. } if msg.contains("maximum nesting depth")));
    assert_eq!(position(&err), (1, 129));
    assert!(jwc::from_str(&nested(500_000)).is_err());
}

#[test]
fn duplicate_keys_are_rejected_unless_allowed() {
    let err = jwc::from_str("{\n  \"a\": 1,\n  \"a\": 2\n}").unwrap_err();
    assert_eq!(position(&err), (3, 3));
    assert_eq!(err.to_string(), "duplicate key \"a\" at 3:3");
    assert!(jwc::from_str("[{\"a\": 1}, {\"a\": 2}]").is_ok());
}

#[test]
fn number_grammar_is_json() {
    for bad in ["01", "1.", ".5", "+1", "1e", "1e+", "-", "0x10", "1_000", "Infinity", "NaN"] {
        let err = jwc::from_str(bad).unwrap_err();
        assert!(matches!(err, Error::Parse { .. }), "{bad}: {err:?}");
    }
}

#[test]
fn integers_are_exact_and_lexemes_survive() {
    let node = jwc::from_str(
        "[9007199254740993, -9223372036854775808, 18446744073709551615, \
         123456789012345678901234567890, 1.0, 1e3, -0, 0.10]",
    )
    .unwrap();
    let Value::Array(items) = &node.value else {
        panic!()
    };
    let n = |i: usize| match &items[i].value {
        Value::Number(n) => n,
        other => panic!("{other:?}"),
    };
    let lexeme = |i: usize| match n(i) {
        Number::Int(v) => v.to_string(),
        Number::Float(t) => t.clone(),
    };
    assert_eq!(n(0), &Number::Int(9_007_199_254_740_993));
    assert_eq!(n(1), &Number::Int(i64::MIN));
    assert_eq!(lexeme(2).parse::<u64>().ok(), Some(u64::MAX));
    assert!(matches!(n(2), Number::Float(_)));
    assert_eq!(n(3), &Number::Float("123456789012345678901234567890".to_string()));
    assert_eq!(n(4), &Number::Float("1.0".to_string()));
    assert!((lexeme(5).parse::<f64>().unwrap() - 1000.0).abs() < f64::EPSILON);
    assert_eq!(n(6), &Number::Int(0), "-0 is the integer zero");
    assert!((lexeme(7).parse::<f64>().unwrap() - 0.1).abs() < f64::EPSILON);
    assert!(lexeme(7).parse::<i32>().is_err());
}

#[test]
fn constructed_floats_stay_floats() {
    // A float is built here from its text: turning an `f64` into text is
    // floating point, which the library leaves to its callers.
    let float = |t: &str| Node::new(Value::Number(Number::Float(t.to_string())));
    let node = Node::new(Value::Array(vec![
        float("1.0"),
        float("-0.0"),
        float("1e21"),
        Node::new(Value::Null),
        Node::new(Value::from(-3)),
        Node::new(Value::Number(Number::Int(7))),
    ]));
    assert_eq!(jwc::to_string(&node).unwrap(), "[1.0,-0.0,1e21,null,-3,7]");
    assert_ne!(Value::from(1), Value::Number(Number::Float("1.0".to_string())));
}

#[test]
fn only_json_whitespace_and_a_leading_bom_are_accepted() {
    assert!(jwc::from_str("\u{feff}{\"a\": 1}").is_ok());
    assert!(jwc::from_str(" \t\r\n{}\r\n").is_ok());
    let err = jwc::from_str("{\u{a0}\"a\": 1}").unwrap_err();
    assert!(matches!(err, Error::Parse { .. }));
    assert!(jwc::from_str("\u{2028}").is_err());
}

#[test]
fn errors_carry_positions_and_messages() {
    let err = jwc::from_str("{\n  \"a\": tru\n}").unwrap_err();
    assert_eq!(err.to_string(), "Unexpected identifier at 2:8");
    let err = jwc::from_str("{\"a\": \"x\u{1}\"}").unwrap_err();
    assert!(err.to_string().starts_with("Unescaped control character"));
    let err = jwc::from_str("[1 2]").unwrap_err();
    assert_eq!(err.to_string(), "Expected ',' or ']' after array element, found '2' at 1:4");
    assert!(jwc::to_string_pretty(&jwc::from_str("1").unwrap(), Some(" \t")).is_err());
}

#[test]
fn object_entry_display_is_valid_jsonc() {
    let mut entry = ObjectEntry::new("key".to_string(), Node::new(Value::from(42)));
    entry.add_key_comment(" lead ");
    entry.add_key_block_comment(" trail ");
    let text = entry.to_string();
    assert_eq!(text, "// lead \n/* trail */\"key\":42");
    assert!(jwc::from_str(&format!("{{{text}}}")).is_ok());
}

#[test]
fn a_repeated_key_with_escapes_is_named_decoded() {
    let err = jwc::from_str("{\"k\\u0041\": 1, \"kA\": 2}").unwrap_err();
    assert_eq!(err.to_string(), "duplicate key \"kA\" at 1:16");
    let err = jwc::from_slice(b"{\"a\":1,\"b\":2,\"a\":3}").unwrap_err();
    assert_eq!(position(&err), (1, 14));
}

#[test]
fn the_single_pass_parser_reads_strings_and_numbers_strictly() {
    let mut p = jwc::SinglePassParser::new("\"line\nbreak\"");
    assert!(p.parse().unwrap_err().starts_with("Unescaped control character in string"));
    let mut p = jwc::SinglePassParser::new("9007199254740993");
    assert_eq!(p.parse().unwrap().value, Value::Number(Number::Int(9_007_199_254_740_993)));
    let mut p = jwc::SinglePassParser::new("{\"a\"\u{a0}: 1}");
    assert!(p.parse().is_err());
    let mut p = jwc::SinglePassParser::new("\u{feff}[1]");
    assert!(p.parse().is_ok());
}
