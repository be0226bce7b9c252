//! The single-pass parser: what it accepts and how it reports failures.

use jwc::{from_str, Number, SinglePassParser, Trivia, Value};

fn spp(input: &str) -> Result<jwc::Node, String> {
    SinglePassParser::new(input).parse()
}

#[test]
fn spp_reads_object_with_comments_and_commas() {
    let input = "{\n  // lead\n  \"a\": 1,\n  \"b\": [true, null,], /* tail */\n}";
    let node = spp(input).unwrap();
    let Value::Object(members) = &node.value else { panic!("object expected") };
    assert_eq!(members.len(), 2);
    assert_eq!(members[0].key, "a");
    assert_eq!(members[0].key_trivia, vec![Trivia::LineComment(" lead".to_string())]);
    assert_eq!(members[0].value.value, Value::Number(Number::Int(1)));
    assert!(members[0].value.comma);
    assert_eq!(members[1].key, "b");
    assert!(members[1].value.comma);
    assert_eq!(members[1].value.trivia, vec![Trivia::BlockComment(" tail ".to_string())]);
    let Value::Array(items) = &members[1].value.value else { panic!("array expected") };
    assert_eq!(items.len(), 2);
    assert_eq!(items[0].value, Value::Bool(true));
    assert!(items[0].comma);
    assert_eq!(items[1].value, Value::Null);
    assert!(items[1].comma);
    assert!(!node.comma);
}

#[test]
fn spp_reads_numbers_like_the_owned_parser() {
    assert_eq!(spp("12").unwrap().value, Value::Number(Number::Int(12)));
    assert_eq!(
        spp("9007199254740993").unwrap().value,
        Value::Number(Number::Int(9007199254740993))
    );
    assert_eq!(spp("-1.5e3").unwrap().value, Value::Number(Number::Float("-1.5e3".to_string())));
    assert_eq!(spp("-").unwrap_err(), "Invalid number at 1:1");
    assert_eq!(spp("1e").unwrap_err(), "Invalid number at 1:1");
}

#[test]
fn spp_refuses_unescaped_control_characters() {
    assert!(spp("\"a\tb\"").is_err());
    assert!(spp("\"line\nbreak\"").unwrap_err().starts_with("Unescaped control character in string"));
    assert!(from_str("\"a\tb\"").is_err());
    assert_eq!(spp("\"q\\\"\\u00e9\\n\"").unwrap().value, Value::String("q\"é\n".to_string()));
    assert_eq!(spp("\"\\ud83c\\udf89\"").unwrap().value, Value::String("🎉".to_string()));
}

#[test]
fn spp_looks_past_comments_and_spaces_for_the_colon() {
    let node = spp("{\"a\" /* k */ \t\r\n : 1}").unwrap();
    let Value::Object(members) = &node.value else { panic!("object expected") };
    assert_eq!(members[0].value.trivia, vec![Trivia::BlockComment(" k ".to_string())]);
    assert!(spp("{\"a\" \u{c}: 1}").is_err());
    assert!(spp("{\"a\" \u{a0}: 1}").is_err());
    assert!(from_str("{\"a\"\u{c}: 1}").is_err());
}

#[test]
fn spp_has_no_nesting_limit() {
    let deep = format!("{}{}", "[".repeat(300), "]".repeat(300));
    assert!(spp(&deep).is_ok());
    assert!(from_str(&deep).is_err());
}

#[test]
fn spp_failure_messages() {
    assert_eq!(spp("").unwrap_err(), "Unexpected EOF");
    assert_eq!(spp("  ").unwrap_err(), "Unexpected EOF");
    assert_eq!(spp("[1").unwrap_err(), "Unexpected EOF in array");
    assert_eq!(spp("{\"a\": 1").unwrap_err(), "Unexpected EOF in object");
    assert_eq!(spp("{\"a\"").unwrap_err(), "Unexpected EOF while looking for ':' after key");
    assert_eq!(spp("{\"a\" 1}").unwrap_err(), "Unexpected character '1' between key and ':' at 1:6");
    assert_eq!(spp("\"\\").unwrap_err(), "Unexpected EOF after \\");
    assert_eq!(spp("\"\\x\"").unwrap_err(), "Invalid escape sequence at 1:3");
    assert_eq!(spp("\"abc").unwrap_err(), "Unterminated string at 1:5");
    assert_eq!(spp("tru").unwrap_err(), "Unexpected identifier at 1:1");
    assert_eq!(spp("1 2").unwrap_err(), "Unexpected trailing content '2' at 1:3");
    assert_eq!(
        spp("[1 2]").unwrap_err(),
        "Expected ',' or ']' after array element, found '2' at 1:4"
    );
    assert_eq!(
        spp("{\"a\":1 \"b\":2}").unwrap_err(),
        "Expected ',' or '}' after object member, found '\"' at 1:8"
    );
    assert_eq!(spp("{1: 2}").unwrap_err(), "Expected string key at 1:7");
    assert_eq!(spp("\n  @").unwrap_err(), "Unexpected character '@' at 2:3");
    assert_eq!(spp("/x").unwrap_err(), "Unexpected character '/' at 1:1");
    assert_eq!(spp("1 /").unwrap_err(), "Unexpected EOF after '/' at 1:4");
    assert_eq!(spp("1 /* open").unwrap_err(), "Unterminated block comment at 1:10");
}

#[test]
fn spp_root_keeps_trailing_comments() {
    let node = spp("// a\n1 // b\n/* c */").unwrap();
    assert_eq!(node.value, Value::Number(Number::Int(1)));
    assert_eq!(
        node.trivia,
        vec![
            Trivia::LineComment(" a".to_string()),
            Trivia::LineComment(" b".to_string()),
            Trivia::BlockComment(" c ".to_string()),
        ]
    );
}
