//! Building owned documents by hand, and copying lazy ones.

use jwc::{Node, Number, ObjectEntry, Trivia, Value, from_str_lazy};

#[test]
fn node_comments_strip_markers() {
    let mut n = Node::new(Value::from(1));
    n.add_line_comment("// one");
    n.add_line_comment("////two");
    n.add_block_comment("/* three */");
    n.add_block_comment("four");
    assert_eq!(
        n.trivia,
        vec![
            Trivia::LineComment(" one".into()),
            Trivia::LineComment("two".into()),
            Trivia::BlockComment(" three ".into()),
            Trivia::BlockComment("four".into()),
        ]
    );
    let n = Node::new_with_comments(Value::from(true), vec!["// a", "b"]);
    assert_eq!(n.trivia, vec![Trivia::LineComment(" a".into()), Trivia::LineComment("b".into())]);
}

#[test]
fn key_comments_strip_markers() {
    let mut e = ObjectEntry::new("k".to_string(), Node::new(Value::Null));
    e.add_key_comment("//c");
    e.add_key_block_comment("/*d*/");
    assert_eq!(e.key_trivia, vec![Trivia::LineComment("c".into()), Trivia::BlockComment("d".into())]);
}

#[test]
fn push_marks_commas_and_refuses_non_arrays() {
    let mut v = Value::Array(vec![]);
    assert_eq!(v.push(Node::new(Value::from(1))), Ok(()));
    assert_eq!(v.push(Node::new(Value::from(2))), Ok(()));
    let Value::Array(items) = &v else { panic!() };
    assert_eq!(items.len(), 2);
    assert!(items[0].comma);
    assert!(!items[1].comma);

    let mut s = Value::from("x".to_string());
    assert_eq!(s.push(Node::new(Value::Null)), Err("Not an array".to_string()));
}

#[test]
fn insert_marks_commas_and_refuses_non_objects() {
    let mut v = Value::Object(vec![]);
    v.insert("a", Node::new(Value::from(1))).unwrap();
    let e = v.insert("b", Node::new(Value::from(2))).unwrap();
    e.add_key_comment("// bee");
    let Value::Object(members) = &v else { panic!() };
    assert_eq!(members.len(), 2);
    assert_eq!(members[0].key, "a");
    assert!(members[0].value.comma);
    assert_eq!(members[1].key_trivia, vec![Trivia::LineComment(" bee".into())]);

    let mut n = Value::Null;
    assert_eq!(n.insert("a", Node::new(Value::Null)).err(), Some("Not an object".to_string()));
}

#[test]
fn lazy_to_value_materializes() {
    let v = from_str_lazy(r#"{"b": [2, 3.5], "a": "x\ny"}"#).unwrap();
    let owned = v.to_value();
    let Value::Object(members) = owned else { panic!() };
    assert_eq!(members[0].key, "a");
    assert!(matches!(&members[0].value.value, Value::String(s) if s == "x\ny"));
    let Value::Array(items) = &members[1].value.value else { panic!() };
    assert!(matches!(items[0].value, Value::Number(Number::Int(2))));
    assert!(matches!(&items[1].value, Value::Number(Number::Float(t)) if t == "3.5"));
}

#[test]
fn clones_equal_their_originals() {
    let node = jwc::from_str("// c\n{\"a\": [1, 2.5, \"x\"], /* k */ \"b\": {}}").unwrap();
    let copy = node.clone();
    assert_eq!(copy, node);
    assert_eq!(copy.value.clone(), node.value);
    if let jwc::Value::Object(ms) = &node.value {
        assert_eq!(ms[1].clone(), ms[1]);
        assert_eq!(ms[0].value.clone(), ms[0].value);
    } else {
        panic!("not an object");
    }
    let n = jwc::Number::Float("2.5".to_string());
    assert_eq!(n.clone(), n);
}
