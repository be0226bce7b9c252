//! JSON Pointer lookups on owned trees.

use jwc::{Node, ObjectEntry, Value, from_str};

fn obj(members: Vec<(&str, Value)>) -> Value {
    Value::Object(
        members.into_iter().map(|(k, v)| ObjectEntry::new(k.to_string(), Node::new(v))).collect(),
    )
}

fn arr(items: Vec<Value>) -> Value {
    Value::Array(items.into_iter().map(Node::new).collect())
}

#[test]
fn pointer_root_and_deep() {
    let v = obj(vec![
        ("a", obj(vec![("b", arr(vec![Value::from(10), Value::from(20), Value::from(30)]))])),
        ("x", Value::Null),
    ]);

    assert_eq!(v.pointer("").unwrap(), &v);
    assert_eq!(v.pointer("/a/b/0"), Some(&Value::from(10)));
    assert_eq!(v.pointer("/a/b/2"), Some(&Value::from(30)));
    assert_eq!(v.pointer("/x"), Some(&Value::Null));
    assert_eq!(v.pointer("/a/b/99"), None);
    assert_eq!(v.pointer("/missing"), None);
}

#[test]
fn pointer_escapes_slash_and_tilde() {
    let v = obj(vec![("a/b", Value::from(1)), ("c~d", Value::from(2))]);
    assert_eq!(v.pointer("/a~1b"), Some(&Value::from(1)));
    assert_eq!(v.pointer("/c~0d"), Some(&Value::from(2)));
}

#[test]
fn pointer_requires_leading_slash() {
    let v = obj(vec![("a", Value::from(1))]);
    assert_eq!(v.pointer("a"), None);
}

#[test]
fn node_pointer_keeps_comments() {
    let n = from_str("{\"a\": [1, /* two */ 2]}").unwrap();
    let two = n.pointer("/a/1").unwrap();
    assert_eq!(two.trivia.len(), 1);
    assert_eq!(n.pointer("").unwrap(), &n);
    assert!(n.pointer("/a/+1").is_some());
    assert!(n.pointer("/a/-1").is_none());
    assert!(n.pointer("/b").is_none());
}
