//! The convenience entry points: parsing text and bytes, writing text and bytes.

use jwc::{from_slice, from_str, to_string_pretty, Error, Value};

#[test]
fn test_from_str() {
    let json = r#"{"key": "value"}"#;
    let node = from_str(json).unwrap();
    assert!(matches!(node.value, Value::Object(_)));
}

#[test]
fn test_from_slice() {
    let json = r#"{"key": 123}"#;
    let node = from_slice(json.as_bytes()).unwrap();
    assert!(matches!(node.value, Value::Object(_)));
}

#[test]
fn test_to_string_pretty() {
    let json = r#"{"a":1}"#;
    let node = from_str(json).unwrap();
    let pretty = to_string_pretty(&node, Some("  ")).unwrap();

    assert!(pretty.contains("{\n  \"a\": 1\n}"));
}

#[test]
fn test_round_trip_convenience() {
    let input = r#"
    {
        // comment
        "key": 42
    }"#;

    let node = from_str(input).unwrap();
    let output = to_string_pretty(&node, Some("    ")).unwrap(); // 4 spaces

    // Output should maintain structure and comments
    assert!(output.contains("// comment"));
    assert!(output.contains("\"key\": 42"));
}

#[test]
fn test_to_string_minified() {
    let json = r#"{
        "a": 1
    }"#;
    let node = from_str(json).unwrap();
    let minified = jwc::to_string(&node).unwrap();
    assert_eq!(minified, r#"{"a":1}"#);
}

#[test]
fn test_to_vec() {
    let json = r#"{"a":1}"#;
    let node = from_str(json).unwrap();
    let vec = jwc::to_vec(&node).unwrap();
    assert_eq!(vec, b"{\"a\":1}");
}

#[test]
fn test_to_vec_pretty() {
    let json = r#"{"a":1}"#;
    let node = from_str(json).unwrap();
    let vec = jwc::to_vec_pretty(&node, None).unwrap(); // Default 4 spaces
    let s = String::from_utf8(vec).unwrap();
    assert!(s.contains("    \"a\": 1"));
}

#[test]
fn bytes_that_are_not_utf8_are_refused() {
    let err = from_slice(&[0x22, 0xff, 0x22]).unwrap_err();
    assert!(matches!(err, Error::Custom(ref m) if !m.is_empty()));
    assert!(from_slice(&[0xc0, 0x80]).is_err());
    let node = from_slice("\"caf\u{e9}\"".as_bytes()).unwrap();
    assert_eq!(node.value, Value::from("caf\u{e9}".to_string()));
    assert_eq!(from_slice(b"[1 2]").unwrap_err(), from_str("[1 2]").unwrap_err());
}
