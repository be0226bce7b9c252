//! Serializer layouts and comment markers.

use jwc::{CommentPolicy, FormatOptions, Indentation, Node, ObjectEntry, Trivia, Value};

#[test]
fn serializer_matrix_test_pretty_tab_indent() {
    let node = Node::new(Value::Object(vec![ObjectEntry::new(
        "a".to_string(),
        Node::new(Value::from(1)),
    )]));
    let out = jwc::to_string_pretty(&node, Some("\t")).unwrap();
    assert!(out.contains("\t\"a\": 1"));
}

#[test]
fn trivia_rendered_with_markers() {
    let mut node = Node::new(Value::from(1));
    node.trivia.push(Trivia::line(" lead"));
    node.trivia.push(Trivia::block(" blk "));
    let out = node.to_formatted_string(FormatOptions {
        indentation: Indentation::Spaces(2),
        comment_policy: CommentPolicy::Keep,
    });
    assert!(out.contains("// lead"));
    assert!(out.contains("/* blk */"));
}
