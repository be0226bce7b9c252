//! Comments, strings and containers built by hand.

use jwc::{Node, Trivia, Value};

#[test]
fn test_ast_trivia_display() {
    let lc = Trivia::LineComment(" test".to_string());
    assert_eq!(lc.to_string(), "// test");
    let bc = Trivia::BlockComment(" test ".to_string());
    assert_eq!(bc.to_string(), "/* test */");
}

#[test]
fn test_ast_from_string() {
    let v: Value = String::from("hello").into();
    assert_eq!(v, Value::String("hello".to_string()));
}

#[test]
fn test_ast_node_new_with_comments() {
    let n = Node::new_with_comments(Value::from(true), vec![" test1", " test2"]);
    assert_eq!(n.trivia.len(), 2);
}

#[test]
fn test_ast_trivia_as_methods() {
    let lc = Trivia::LineComment(" test".to_string());
    assert_eq!(lc.as_line_comment(), Some(" test".to_string()));
    assert_eq!(lc.as_block_comment(), None);

    let bc = Trivia::BlockComment(" test ".to_string());
    assert_eq!(bc.as_block_comment(), Some(" test ".to_string()));
    assert_eq!(bc.as_line_comment(), None);
}

#[test]
fn test_ast_value_insert_error() {
    let mut v = Value::from(true);
    let res = v.insert("key", Node::new(Value::from(false)));
    assert!(res.is_err());
}
