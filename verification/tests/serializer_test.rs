//! Formatter settings and string escaping.

use jwc::serializer::escape_string;
use jwc::{from_str, CommentPolicy, Error, FormatOptions, Indentation, Value};

#[test]
fn indentation_parse() {
    assert_eq!(Indentation::parse(None), Ok(Indentation::Spaces(4)));
    assert_eq!(Indentation::parse(Some("\t")), Ok(Indentation::Tabs));
    assert_eq!(Indentation::parse(Some("  ")), Ok(Indentation::Spaces(2)));
    let many = " ".repeat(255);
    assert_eq!(Indentation::parse(Some(&many)), Ok(Indentation::Spaces(255)));
    let too_many = " ".repeat(256);
    assert!(Indentation::parse(Some(&too_many)).is_err());
    match Indentation::parse(Some(" \t")) {
        Err(Error::Custom(msg)) => assert_eq!(
            msg,
            "unsupported indentation Some(\" \\t\"): use a tab or a run of spaces"
        ),
        other => panic!("unexpected: {other:?}"),
    }
    assert_eq!(Indentation::parse(Some("")), Ok(Indentation::Minified));
}

#[test]
fn indentation_detect() {
    assert_eq!(Indentation::detect("{}"), Indentation::Spaces(4));
    assert_eq!(Indentation::detect("{\n  \"a\": 1\n}"), Indentation::Spaces(2));
    assert_eq!(Indentation::detect("{\n\t\"a\": 1\n}"), Indentation::Tabs);
    assert_eq!(Indentation::detect("{\n   \n\n      \"a\": 1\n}"), Indentation::Spaces(6));
    assert_eq!(Indentation::detect("x\r\n   y"), Indentation::Spaces(3));
}

#[test]
fn format_options_default() {
    let o = FormatOptions::default();
    assert_eq!(o.indentation, Indentation::Minified);
    assert_eq!(o.comment_policy, CommentPolicy::Keep);
}

#[test]
fn escape_strings() {
    assert_eq!(escape_string("plain é"), "plain é");
    assert_eq!(escape_string("q\"b\\"), "q\\\"b\\\\");
    assert_eq!(escape_string("\u{8}\u{c}\n\r\t"), "\\b\\f\\n\\r\\t");
    assert_eq!(escape_string("\u{1}\u{1f}"), "\\u0001\\u001F");
}

#[test]
fn escaped_strings_read_back() {
    let samples = [
        "",
        "plain",
        "say \"hi\"",
        "back\\slash",
        "tab\there\nnew\rline\u{8}\u{c}",
        "ctl\u{1}\u{1f}end",
        "é ü 日本 🎉",
        "mixed é \"q\" \u{2} 🎉\\",
    ];
    for s in samples {
        let doc = format!("\"{}\"", escape_string(s));
        let node = from_str(&doc).expect("escaped string parses");
        assert_eq!(node.value, Value::String(s.to_string()));
        assert!(node.trivia.is_empty());
        assert!(!node.comma);
    }
}
