//! The formatter: layouts, comment policies, escaping and reading back.

use jwc::single_pass_parser::SinglePassParser;
use jwc::{
    from_str, CommentPolicy, FormatOptions, Indentation, Node, ObjectEntry, Trivia, Value,
};

fn spp_parse(input: &str) -> Node {
    let mut parser = SinglePassParser::new(input);
    parser.parse().unwrap()
}

fn obj(members: Vec<(&str, Value)>) -> Value {
    Value::Object(
        members.into_iter().map(|(k, v)| ObjectEntry::new(k.to_string(), Node::new(v))).collect(),
    )
}

fn arr(items: Vec<Value>) -> Value {
    Value::Array(items.into_iter().map(Node::new).collect())
}

fn doc_with_comments() -> Node {
    from_str(
        r#"{
            // lead
            "a": /* inline */ 1,
            "b": 2 // trail
        }"#,
    )
    .unwrap()
}

#[test]
fn test_remove_comments() {
    let input = r#"
    {
        // Comment
        "key": "value" /* block */
    }
    "#;
    let node = spp_parse(input);
    let options = FormatOptions {
        indentation: Indentation::Minified,
        comment_policy: CommentPolicy::Remove,
    };
    let output = node.to_formatted_string(options);
    assert!(!output.contains("Comment"));
    assert!(!output.contains("block"));
    assert!(output.contains("\"key\":\"value\""));
}

#[test]
fn test_beautify_spaces() {
    let input = r#"{"key":"value","arr":[1,2]}"#;
    let node = spp_parse(input);
    let options = FormatOptions {
        indentation: Indentation::Spaces(2),
        comment_policy: CommentPolicy::Keep,
    };
    let output = node.to_formatted_string(options);
    assert!(output.contains("{\n  \"key\": \"value\",\n  \"arr\": [\n    1,\n    2\n  ]\n}"));
}

#[test]
fn test_beautify_tabs() {
    let input = r#"{"key":"value"}"#;
    let node = spp_parse(input);
    let options =
        FormatOptions { indentation: Indentation::Tabs, comment_policy: CommentPolicy::Keep };
    let output = node.to_formatted_string(options);
    assert!(output.contains("{\n\t\"key\": \"value\"\n}"));
}

#[test]
fn keep_policy_preserves_all_comments() {
    let node = doc_with_comments();
    let out = node.to_formatted_string(FormatOptions {
        indentation: Indentation::Spaces(2),
        comment_policy: CommentPolicy::Keep,
    });
    assert!(out.contains("// lead"));
    assert!(out.contains("/* inline */"));
    assert!(out.contains("// trail"));
}

#[test]
fn remove_policy_strips_all_comments() {
    let node = doc_with_comments();
    let out = node.to_formatted_string(FormatOptions {
        indentation: Indentation::Spaces(2),
        comment_policy: CommentPolicy::Remove,
    });
    assert!(!out.contains("lead"));
    assert!(!out.contains("inline"));
    assert!(!out.contains("trail"));
    assert!(!out.contains("//"));
    assert!(!out.contains("/*"));
}

#[test]
fn compact_output_no_whitespace_between_tokens() {
    let node = Node::new(obj(vec![("a", Value::from(1)), ("b", arr(vec![Value::from(2), Value::from(3)]))]));
    let out = jwc::to_string(&node).unwrap();
    assert_eq!(out, r#"{"a":1,"b":[2,3]}"#);
}

#[test]
fn pretty_two_space() {
    let node = Node::new(obj(vec![("a", Value::from(1))]));
    let out = jwc::to_string_pretty(&node, Some("  ")).unwrap();
    assert!(out.contains("  \"a\": 1"));
}

#[test]
fn pretty_tab_indent() {
    let node = Node::new(obj(vec![("a", Value::from(1))]));
    let out = jwc::to_string_pretty(&node, Some("\t")).unwrap();
    assert!(out.contains("\t\"a\": 1"));
}

#[test]
fn escape_special_string_chars() {
    let node = Node::new(Value::from("\" \\ / \n \r \t".to_string()));
    let out = jwc::to_string(&node).unwrap();
    assert!(out.contains(r#"\" "#) || out.contains("\\\""));
    assert!(out.contains("\\\\"));
    assert!(out.contains("\\n"));
    assert!(out.contains("\\r"));
    assert!(out.contains("\\t"));
}

#[test]
fn null_byte_escaped_as_u0000() {
    let node = Node::new(Value::from("a\0b".to_string()));
    let out = jwc::to_string(&node).unwrap();
    assert!(out.contains("\\u0000"));
}

#[test]
fn empty_containers_minimal_output() {
    assert_eq!(jwc::to_string(&Node::new(arr(vec![]))).unwrap(), "[]");
    assert_eq!(jwc::to_string(&Node::new(obj(vec![]))).unwrap(), "{}");
}

#[test]
fn test_serializer_indent_none() {
    let obj = Value::Object(vec![ObjectEntry::new("a".to_string(), Node::new(Value::from(1)))]);
    let n = Node::new(obj);
    let s = n.to_formatted_string(FormatOptions {
        indentation: Indentation::Minified,
        comment_policy: CommentPolicy::Keep,
    });
    assert_eq!(s, "{\"a\":1}");
}

#[test]
fn test_node_comments() {
    let mut node = Node::new(Value::from("value".to_string()));
    node.add_line_comment(" leading ");
    node.add_block_comment(" block ");
    assert_eq!(node.trivia.len(), 2);
    if let Trivia::LineComment(c) = &node.trivia[0] {
        assert_eq!(c, " leading ");
    } else {
        panic!("Expected LineComment");
    }
    if let Trivia::BlockComment(c) = &node.trivia[1] {
        assert_eq!(c, " block ");
    } else {
        panic!("Expected BlockComment");
    }
    node.add_line_comment(" trailing ");
    let _json = jwc::to_string(&node).unwrap();
}

#[test]
fn test_object_entry_comments() {
    let mut val_node = Node::new(Value::from(42));
    val_node.add_line_comment(" value comment ");
    let mut entry = ObjectEntry::new("key".to_string(), val_node);
    entry.add_key_comment(" key comment ");
    entry.add_key_block_comment(" key trailing ");
    let obj_val = Value::Object(vec![entry]);
    let obj_node = Node::new(obj_val);
    let json = jwc::to_string(&obj_node).unwrap();
    let _parsed = jwc::from_str(&json);
}

#[test]
fn test_round_trip_complex() {
    let input = r#"
    {
        // This is a key comment
        "key": /* value comment */ "value",
        "array": [
            // Array element comment
            1,
            2 // Trailing element comment
        ],
        /* Trailing object comment */
    }
    "#;
    let node1 = jwc::from_str(input).expect("Failed to parse initial input");
    let serialized = jwc::to_string_pretty(&node1, Some("  ")).expect("Failed to serialize");
    let node2 = jwc::from_str(&serialized).expect("Failed to parse serialized output");
    assert_eq!(node1, node2, "Round trip failed: ASTs do not match");
}

#[test]
fn test_manual_construction_and_parsing() {
    let mut root_val = Value::Object(Vec::new());
    assert!(root_val.push(Node::new(Value::from(true))).is_err());
    let mut val1 = Node::new(Value::from("bar".to_string()));
    val1.add_line_comment(" val1 comment");
    let entry_ref = root_val.insert("foo", val1).unwrap();
    entry_ref.add_key_comment(" key1 comment");
    let root = Node::new(root_val);
    let serialized = jwc::to_string_pretty(&root, None).unwrap();
    let parsed = jwc::from_str(&serialized).unwrap();
    assert_eq!(root, parsed);
}

#[test]
fn test_string_escape_round_trip() {
    let input = r#"{
        "escapes": "\" \\ \/ \b \f \n \r \t \u0000",
        "rocket": "\uD83D\uDE80"
    }"#;
    let parsed = jwc::from_str(input).expect("Failed to parse escaped string payload");
    let serialized = jwc::to_string(&parsed).expect("Failed to serialize escaped string payload");
    let reparsed = jwc::from_str(&serialized).expect("Failed to parse serialized escaped payload");
    assert_eq!(parsed, reparsed, "Escaped strings did not round-trip");
    assert!(serialized.contains("\\u0000"));
    assert!(serialized.contains("\\b") && serialized.contains("\\f"));
}

#[test]
fn number_lexemes_are_written_as_read() {
    let input = r#"{
        "max_int64": 9223372036854775807,
        "precision_loss": 9007199254740993,
        "floats": [1.23456789e+308, 5e-324, -0.0, 0.0000000000000000000000000000000000000001]
    }"#;
    let parsed = jwc::from_str(input).unwrap();
    let serialized = jwc::to_string(&parsed).unwrap();
    assert!(serialized.contains("\"max_int64\":9223372036854775807"));
    assert!(serialized.contains("\"precision_loss\":9007199254740993"));
    assert!(serialized
        .contains("[1.23456789e+308,5e-324,-0.0,0.0000000000000000000000000000000000000001]"));
    assert_eq!(jwc::to_string(&Node::new(Value::from(-42))).unwrap(), "-42");
    let min = Node::new(Value::Number(jwc::Number::Int(i64::MIN)));
    assert_eq!(jwc::to_string(&min).unwrap(), "-9223372036854775808");
}

#[test]
fn comment_policies_and_layouts_exactly() {
    let node = from_str("// h\n{\n  // k\n  \"a\": /* v */ [1, // one\n 2]\n}").unwrap();
    let keep = node.to_formatted_string(FormatOptions {
        indentation: Indentation::Spaces(2),
        comment_policy: CommentPolicy::Keep,
    });
    assert_eq!(keep, "// h\n{\n  // k\n  \"a\": /* v */ [\n    1,\n    // one\n    2\n  ]\n}");
    let minify = node.to_formatted_string(FormatOptions {
        indentation: Indentation::Minified,
        comment_policy: CommentPolicy::Minify,
    });
    assert_eq!(minify, "/* h*/{/* k*/\"a\":/* v */[1,/* one*/2]}");
    assert!(from_str(&minify).is_ok());
    let compact_keep = jwc::to_string(&node).unwrap();
    assert_eq!(compact_keep, "// h\n{// k\n\"a\":/* v */[1,// one\n2]}");
    assert_eq!(from_str(&compact_keep).unwrap(), node);
    assert_eq!(node.to_string(), compact_keep);
    assert_eq!(node.value.to_string(), "{// k\n\"a\":/* v */[1,// one\n2]}");
}

#[test]
fn pretty_refuses_other_indentation() {
    let node = Node::new(obj(vec![("a", Value::from(1))]));
    assert!(jwc::to_string_pretty(&node, Some("--> ")).is_err());
    assert_eq!(jwc::to_vec_pretty(&node, Some("")).unwrap(), b"{\"a\":1}".to_vec());
    assert_eq!(jwc::to_vec(&node).unwrap(), b"{\"a\":1}".to_vec());
    assert_eq!(
        jwc::to_vec_pretty(&node, None).unwrap(),
        b"{\n    \"a\": 1\n}".to_vec()
    );
}

#[test]
fn entry_to_string_writes_key_comments_first() {
    let mut entry = ObjectEntry::new("key".to_string(), Node::new(Value::from(42)));
    entry.add_key_comment(" lead ");
    entry.add_key_block_comment(" trail ");
    assert_eq!(entry.to_string(), "// lead \n/* trail */\"key\":42");
}
