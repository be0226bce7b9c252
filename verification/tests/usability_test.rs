//! The public API end to end: structured errors, pretty printing, round trips.

use jwc::{Error, Node, ObjectEntry, Value};

fn object_a1() -> Value {
    Value::Object(vec![ObjectEntry::new("a".to_string(), Node::new(Value::from(1)))])
}

#[test]
fn parse_error_is_structured_with_position() {
    let err = jwc::from_str("\n\n\"unterminated").unwrap_err();
    match err {
        Error::Parse { line, col, msg } => {
            assert_eq!(line, 3);
            assert!(col >= 1);
            assert!(!msg.contains(" at "));
        }
        other => panic!("expected Parse, got {other:?}"),
    }
}

#[test]
fn usability_test_pretty_tab_indent() {
    let n = Node::new(object_a1());
    let out = jwc::to_string_pretty(&n, Some("\t")).unwrap();
    assert!(out.contains("\t\"a\": 1"));
}

#[test]
fn round_trip_preserves_comments_but_not_commas() {
    let src = r#"{
    // lead
    "a": 1,
    /* trail */
    "b": 2,
}"#;
    let node = jwc::from_str(src).unwrap();
    let out = jwc::to_string_pretty(&node, Some("  ")).unwrap();
    assert!(out.contains("// lead"));
    assert!(out.contains("/* trail */"));
    assert!(!out.trim_end().ends_with(",}"));
    assert!(!out.trim_end().ends_with(",\n}"));
}

#[test]
fn comments_survive_parse_serialize_reparse() {
    let src = "// top\n42";
    let a = jwc::from_str(src).unwrap();
    let serialized = jwc::to_string_pretty(&a, Some("  ")).unwrap();
    let b = jwc::from_str(&serialized).unwrap();
    assert_eq!(a, b);
}
