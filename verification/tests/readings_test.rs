//! Accessors of the lazy tree, and compact versus pretty output.

use jwc::{from_str_lazy, LazyVal, Node, ObjectEntry, Value};

// The library reads numbers exactly; the readings through `f64` below are
// the ones the application layer offers under these names.
fn as_i64(v: &LazyVal) -> Option<i64> {
    v.as_exact_i64().or_else(|| v.as_number_lex()?.parse::<f64>().ok().map(|f| f as i64))
}

fn as_u64(v: &LazyVal) -> Option<u64> {
    as_i64(v).and_then(|n| if n >= 0 { Some(n as u64) } else { None })
}

fn as_f64(v: &LazyVal) -> Option<f64> {
    v.as_number_lex()?.parse::<f64>().ok()
}

#[test]
fn lazyval_predicates_and_accessors() {
    let v = from_str_lazy("null").unwrap();
    assert!(v.is_null());
    assert!(!v.is_bool());
    assert!(!v.is_number());
    assert!(!v.is_string());
    assert!(!v.is_array());
    assert!(!v.is_object());
    assert!(v.as_bool().is_none());

    let v = from_str_lazy("true").unwrap();
    assert!(v.is_bool());
    assert_eq!(v.as_bool(), Some(true));

    let v = from_str_lazy("42").unwrap();
    assert!(v.is_number());
    assert_eq!(as_i64(&v), Some(42));
    assert_eq!(as_u64(&v), Some(42));
    assert_eq!(as_f64(&v), Some(42.0));
    assert_eq!(v.as_number_lex(), Some("42"));

    let v = from_str_lazy("-5").unwrap();
    assert_eq!(as_u64(&v), None);

    let v = from_str_lazy("1.5e1").unwrap();
    assert_eq!(as_i64(&v), Some(15));
    assert_eq!(as_f64(&v), Some(15.0));
    assert_eq!(v.as_exact_i64(), None);

    let v = from_str_lazy(r#""hi""#).unwrap();
    assert!(v.is_string());
    assert_eq!(v.as_str().as_deref(), Some("hi"));
    assert_eq!(v.len(), Some(2));

    let v = from_str_lazy("true").unwrap();
    assert!(as_i64(&v).is_none());
    assert!(as_u64(&v).is_none());
    assert!(as_f64(&v).is_none());
    assert!(v.as_number_lex().is_none());
    assert!(v.as_str().is_none());
    assert!(v.as_array().is_none());
    assert!(v.as_object().is_none());
    assert!(v.get("k").is_none());
    assert!(v.at(0).is_none());
    assert!(v.len().is_none());
}

#[test]
fn lazy_reader_skips_unicode_whitespace() {
    let v = from_str_lazy("{\u{a0}\"a\":\u{2028} 1\u{3000}}").unwrap();
    assert_eq!(v.get("a").and_then(|x| x.as_exact_i64()), Some(1));
    assert!(from_str_lazy("\u{feff}1").is_err());
    assert!(jwc::from_str("{\u{a0}\"a\": 1}").is_err());
}

fn sample() -> Value {
    Value::Object(vec![
        ObjectEntry::new("a".to_string(), Node::new(Value::from(1))),
        ObjectEntry::new(
            "b".to_string(),
            Node::new(Value::Array(vec![Node::new(Value::from(2)), Node::new(Value::from(3))])),
        ),
    ])
}

#[test]
fn display_compact_vs_pretty() {
    let v = sample();
    let compact = v.to_string();
    let pretty = jwc::to_string_pretty(&Node::new(sample()), None).unwrap();
    assert_eq!(compact, r#"{"a":1,"b":[2,3]}"#);
    assert!(pretty.contains('\n'));
    assert!(pretty.contains("    \"a\": 1"));
}

#[test]
fn pretty_none_equals_compact() {
    let node = Node::new(Value::Object(vec![ObjectEntry::new(
        "a".to_string(),
        Node::new(Value::from(1)),
    )]));
    let compact = jwc::to_string(&node).unwrap();
    let pretty_empty = jwc::to_string_pretty(&node, Some("")).unwrap();
    assert_eq!(compact, pretty_empty);
}

#[test]
fn pretty_empty_indent_is_compact() {
    let n = Node::new(Value::Object(vec![ObjectEntry::new(
        "a".to_string(),
        Node::new(Value::from(1)),
    )]));
    let out = jwc::to_string_pretty(&n, Some("")).unwrap();
    assert_eq!(out, r#"{"a":1}"#);
}
