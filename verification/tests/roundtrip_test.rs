//! Written text read back: trees with comments, under every layout.

use jwc::{from_str, CommentPolicy, FormatOptions, Indentation, Node, Number, ObjectEntry, Value};

fn commented_tree() -> Node {
    let mut inner = Node::new(Value::Array(vec![
        Node::new(Value::Number(Number::Float("-1.5e3".to_string()))),
        Node::new(Value::Null),
        Node::new(Value::Array(Vec::new())),
    ]));
    inner.add_block_comment(" list * / ");
    let mut text = Node::new(Value::from("tab\there \u{1F680} \"q\"".to_string()));
    text.add_line_comment(" caf\u{e9} */ not closing here");
    let mut key = ObjectEntry::new("k\u{e9}y".to_string(), text);
    key.add_key_comment(" first");
    key.add_key_block_comment("second");
    let mut root = Node::new(Value::Object(vec![
        key,
        ObjectEntry::new("list".to_string(), inner),
        ObjectEntry::new("n".to_string(), Node::new(Value::Number(Number::Int(i64::MIN)))),
        ObjectEntry::new("empty".to_string(), Node::new(Value::Object(Vec::new()))),
    ]));
    root.add_line_comment(" top");
    root
}

fn layouts() -> Vec<Indentation> {
    vec![Indentation::Minified, Indentation::Tabs, Indentation::Spaces(0), Indentation::Spaces(3)]
}

#[test]
fn written_trees_read_back_under_every_layout() {
    let tree = commented_tree();
    for indentation in layouts() {
        let text = tree.to_formatted_string(FormatOptions {
            indentation,
            comment_policy: CommentPolicy::Keep,
        });
        let back = from_str(&text).unwrap();
        assert_eq!(back, tree, "layout {:?} gave {:?}", indentation, text);
    }
}

#[test]
fn written_scalars_read_back() {
    let values = vec![
        Value::Bool(true),
        Value::Bool(false),
        Value::Null,
        Value::Number(Number::Int(0)),
        Value::Number(Number::Int(i64::MAX)),
        Value::Number(Number::Float("12345678901234567890".to_string())),
        Value::from("\u{0}\u{1f}\\/".to_string()),
    ];
    for v in values {
        let node = Node::new(v);
        let text = jwc::to_string(&node).unwrap();
        assert_eq!(from_str(&text).unwrap(), node);
    }
}

#[test]
fn a_comma_is_not_read_back() {
    let mut first = Node::new(Value::from(1));
    first.comma = true;
    let node = Node::new(Value::Array(vec![first, Node::new(Value::from(2))]));
    let text = jwc::to_string(&node).unwrap();
    assert_eq!(text, "[1,2]");
    let back = from_str(&text).unwrap();
    assert_ne!(back, node);
    match back.value {
        Value::Array(items) => assert!(!items[0].comma),
        _ => panic!("not an array"),
    }
}

#[test]
fn a_line_break_in_a_line_comment_is_not_read_back() {
    let mut node = Node::new(Value::from(1));
    node.add_line_comment(" one\n2");
    let text = jwc::to_string(&node).unwrap();
    assert_eq!(text, "// one\n2\n1");
    assert!(from_str(&text).is_err());
}
