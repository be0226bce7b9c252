//! Scale: deep nesting, wide containers, large inputs, many comments.

use jwc::MAX_DEPTH;
use jwc::{from_str, Error, Node, Number, Value};

fn nested_arrays(depth: usize) -> String {
    let open: String = std::iter::repeat_n('[', depth).collect();
    let close: String = std::iter::repeat_n(']', depth).collect();
    format!("{open}{close}")
}

fn as_array(v: &Value) -> Option<&Vec<Node>> {
    match v {
        Value::Array(items) => Some(items),
        _ => None,
    }
}

fn len(v: &Value) -> Option<usize> {
    match v {
        Value::Array(items) => Some(items.len()),
        Value::Object(ms) => Some(ms.len()),
        _ => None,
    }
}

fn at(v: &Value, i: usize) -> Option<&Value> {
    as_array(v).and_then(|items| items.get(i)).map(|n| &n.value)
}

fn member<'a>(v: &'a Value, key: &str) -> Option<&'a Value> {
    match v {
        Value::Object(ms) => ms.iter().find(|e| e.key == key).map(|e| &e.value.value),
        _ => None,
    }
}

fn as_i64(v: &Value) -> Option<i64> {
    match v {
        Value::Number(Number::Int(n)) => Some(*n),
        _ => None,
    }
}

#[test]
fn deep_nesting_at_cap_parses() {
    let src = nested_arrays(MAX_DEPTH);
    let node = from_str(&src).expect("parse at MAX_DEPTH should succeed");
    let mut cur = &node.value;
    let mut levels = 0;
    loop {
        let arr = as_array(cur).expect("every level should be an array");
        if arr.is_empty() {
            break;
        }
        cur = &arr[0].value;
        levels += 1;
    }
    assert_eq!(levels, MAX_DEPTH - 1, "expected MAX_DEPTH-1 non-empty levels plus one empty innermost");
}

#[test]
fn deep_nesting_past_cap_returns_error_no_overflow() {
    let src = nested_arrays(MAX_DEPTH + 1);
    match from_str(&src) {
        Err(Error::Parse { msg, .. }) => {
            assert!(msg.contains("maximum nesting depth"), "unexpected parse error: {msg}")
        }
        other => panic!("expected Parse error past MAX_DEPTH, got {other:?}"),
    }
}

#[test]
fn wide_array_10k_entries() {
    let mut src = String::from("[");
    for i in 0..10_000 {
        if i > 0 {
            src.push(',');
        }
        src.push_str(&i.to_string());
    }
    src.push(']');
    let node = from_str(&src).unwrap();
    assert_eq!(len(&node.value), Some(10_000));
    assert_eq!(at(&node.value, 0).and_then(as_i64), Some(0));
    assert_eq!(at(&node.value, 9_999).and_then(as_i64), Some(9_999));
}

#[test]
fn wide_object_5k_keys() {
    let mut src = String::from("{");
    for i in 0..5_000 {
        if i > 0 {
            src.push(',');
        }
        src.push_str(&format!("\"k{i}\":{i}"));
    }
    src.push('}');
    let node = from_str(&src).unwrap();
    assert_eq!(len(&node.value), Some(5_000));
    assert_eq!(member(&node.value, "k0").and_then(as_i64), Some(0));
    assert_eq!(member(&node.value, "k4999").and_then(as_i64), Some(4_999));
}

#[test]
fn round_trip_large_pretty_then_reparse() {
    let src = r#"{"a":[1,2,3],"b":{"c":"d"},"e":true,"f":null}"#;
    let a = from_str(src).unwrap();
    let pretty = jwc::to_string_pretty(&a, Some("    ")).unwrap();
    let b = from_str(&pretty).unwrap();
    assert_eq!(a, b);
}

#[test]
fn whitespace_heavy_input_parses_to_same_structure() {
    let packed = r#"{"a":1,"b":[2,3]}"#;
    let sparse = r#"
    {
        "a"   :   1   ,
        "b"   :   [   2   ,   3   ]
    }
    "#;
    assert_eq!(from_str(packed).unwrap().value, from_str(sparse).unwrap().value);
}

#[test]
fn many_comments_scattered() {
    let src = r#"
        // a
        // b
        /* c */
        {
            // before-key
            "x" /* inline */ : 1,
            /* between */
            "y": 2
            // trail
        }
        // outside
    "#;
    let node = from_str(src).expect("should parse");
    let total_comments = count_comments(&node);
    assert!(total_comments >= 5, "expected >=5 comments, got {total_comments}");
}

fn count_comments(n: &Node) -> usize {
    let mut c = n.trivia.len();
    match &n.value {
        Value::Array(items) => {
            for i in items {
                c += count_comments(i);
            }
        }
        Value::Object(members) => {
            for m in members {
                c += m.key_trivia.len();
                c += count_comments(&m.value);
            }
        }
        _ => {}
    }
    c
}
