//! The parser that builds owned trees.

use jwc::{Error, Node, Number, Trivia, Value, from_str};

fn parse_error(src: &str) -> (usize, usize, String) {
    match from_str(src) {
        Err(Error::Parse { line, col, msg }) => (line, col, msg),
        other => panic!("expected a parse error for {src:?}, got {other:?}"),
    }
}

#[test]
fn owned_scalars() {
    assert!(matches!(from_str("null").unwrap().value, Value::Null));
    assert!(matches!(from_str("true").unwrap().value, Value::Bool(true)));
    assert!(matches!(from_str("false").unwrap().value, Value::Bool(false)));
    assert!(matches!(from_str("42").unwrap().value, Value::Number(Number::Int(42))));
    assert!(matches!(from_str("-7").unwrap().value, Value::Number(Number::Int(-7))));
    match from_str("1.5e3").unwrap().value {
        Value::Number(Number::Float(text)) => assert_eq!(text, "1.5e3"),
        other => panic!("expected a float, got {other:?}"),
    }
    match from_str("9223372036854775808").unwrap().value {
        Value::Number(Number::Float(text)) => assert_eq!(text, "9223372036854775808"),
        other => panic!("expected a float, got {other:?}"),
    }
    match from_str(r#""a\nb\u00e9\uD83D\uDE00""#).unwrap().value {
        Value::String(s) => assert_eq!(s, "a\nb\u{e9}\u{1F600}"),
        other => panic!("expected a string, got {other:?}"),
    }
}

#[test]
fn owned_containers_keep_source_order_and_comments() {
    let n: Node = from_str("{\n  // before b\n  \"b\": 1,\n  \"a\": [true, null] // after\n}").unwrap();
    let Value::Object(members) = &n.value else { panic!("object expected") };
    assert_eq!(members.len(), 2);
    assert_eq!(members[0].key, "b");
    assert_eq!(members[1].key, "a");
    assert_eq!(members[0].key_trivia, vec![Trivia::LineComment(" before b".into())]);
    assert_eq!(members[1].value.trivia, vec![Trivia::LineComment(" after".into())]);
    let Value::Array(items) = &members[1].value.value else { panic!("array expected") };
    assert_eq!(items.len(), 2);
}

#[test]
fn owned_root_comments() {
    let n = from_str("/* lead */ 1 // tail\n").unwrap();
    assert_eq!(
        n.trivia,
        vec![Trivia::BlockComment(" lead ".into()), Trivia::LineComment(" tail".into())]
    );
}

#[test]
fn owned_error_messages_and_positions() {
    assert_eq!(parse_error(""), (1, 1, "Unexpected EOF".to_string()));
    assert_eq!(parse_error("[1 2]"), (1, 4, "Expected ',' or ']' after array element, found '2'".to_string()));
    assert_eq!(parse_error("{\"a\" 1}"), (1, 6, "Expected ':' after key".to_string()));
    assert_eq!(parse_error("{1: 2}"), (1, 7, "Expected string key".to_string()));
    assert_eq!(parse_error("tru"), (1, 1, "Unexpected identifier".to_string()));
    assert_eq!(parse_error("@"), (1, 1, "Unexpected character '@'".to_string()));
    assert_eq!(parse_error("1 x"), (1, 3, "Unexpected trailing content 'x'".to_string()));
    assert_eq!(parse_error("\n\n\"abc"), (3, 5, "Unterminated string".to_string()));
    assert_eq!(parse_error(r#""\x""#), (1, 3, "Invalid escape sequence".to_string()));
    assert_eq!(parse_error(r#""\u12G4""#), (1, 6, "Invalid unicode escape hex digit".to_string()));
    assert_eq!(parse_error(r#""\uDC00""#), (1, 7, "Unexpected low surrogate in unicode escape".to_string()));
    assert_eq!(
        parse_error(r#""\uD800x""#),
        (1, 7, "Expected low surrogate after high surrogate".to_string())
    );
    assert_eq!(
        parse_error(r#""\uD800\u0041""#),
        (1, 13, "Invalid low surrogate in unicode escape".to_string())
    );
    assert_eq!(parse_error("1.2.3"), (1, 1, "Invalid number".to_string()));
    assert_eq!(parse_error("[1,"), (1, 4, "Unexpected EOF in array".to_string()));
    assert_eq!(parse_error("{"), (1, 2, "Unexpected EOF in object".to_string()));
    assert_eq!(parse_error("\"a\u{1}\""), (1, 3, "Unescaped control character in string".to_string()));
}

#[test]
fn owned_depth_is_capped() {
    let ok = format!("{}{}", "[".repeat(jwc::MAX_DEPTH), "]".repeat(jwc::MAX_DEPTH));
    assert!(from_str(&ok).is_ok());
    let deep = format!("{}{}", "[".repeat(jwc::MAX_DEPTH + 1), "]".repeat(jwc::MAX_DEPTH + 1));
    let (_, _, msg) = parse_error(&deep);
    assert_eq!(msg, "maximum nesting depth exceeded");
}

#[test]
fn owned_numbers_follow_the_json_grammar() {
    for text in ["-0.5", "2E-3", "0.25e+10", "1.0"] {
        match from_str(text).unwrap().value {
            Value::Number(Number::Float(t)) => assert_eq!(t, text),
            other => panic!("{text}: expected a float, got {other:?}"),
        }
    }
    for bad in ["1e", "1e+", "-", "1-2", "--1", "1.", "-.5", "01"] {
        let (_, _, msg) = parse_error(bad);
        assert_eq!(msg, "Invalid number", "{bad}");
    }
}

#[test]
fn parser_keeps_repeated_keys_that_from_str_refuses() {
    let text = "{\"a\": 1, \"a\": 2}";
    let node = jwc::parser::Parser::new(text).parse().unwrap();
    let Value::Object(members) = &node.value else { panic!("object expected") };
    assert_eq!(members.len(), 2);
    assert_eq!(members[0].key, "a");
    assert_eq!(members[1].value.value, Value::from(2));
    assert_eq!(from_str(text).unwrap_err().to_string(), "duplicate key \"a\" at 1:10");
}
