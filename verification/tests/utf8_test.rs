//! Unicode / UTF-8 round-trips: strings, keys, comments with non-ASCII.

use jwc::{from_str, from_str_lazy, Number, Value};

fn as_str(v: &Value) -> Option<&str> {
    match v {
        Value::String(s) => Some(s.as_str()),
        _ => None,
    }
}

fn member<'a>(v: &'a Value, key: &str) -> Option<&'a Value> {
    match v {
        Value::Object(ms) => ms.iter().find(|e| e.key == key).map(|e| &e.value.value),
        _ => None,
    }
}

fn as_i64(v: &Value) -> Option<i64> {
    match v {
        Value::Number(Number::Int(n)) => Some(*n),
        _ => None,
    }
}

#[test]
fn multibyte_chars_in_string_values() {
    let cases = [
        ("ascii", r#""hello""#, "hello"),
        ("latin", r#""café""#, "café"),
        ("cjk", r#""日本語""#, "日本語"),
        ("emoji", r#""hi 🚀""#, "hi 🚀"),
        ("mixed", r#""Привет, 世界 🌍""#, "Привет, 世界 🌍"),
    ];
    for (tag, src, expected) in cases {
        let v = from_str(src).unwrap().value;
        assert_eq!(as_str(&v), Some(expected), "case {tag}");
        let b = from_str_lazy(src).unwrap();
        assert_eq!(b.as_str().as_deref(), Some(expected), "case {tag} (lazy)");
    }
}

#[test]
fn surrogate_pair_escape_decodes_to_astral() {
    let src = r#""🚀""#;
    let v = from_str(src).unwrap().value;
    assert_eq!(as_str(&v), Some("🚀"));
}

#[test]
fn unpaired_high_surrogate_errors() {
    let src = r#""\uD83D""#;
    assert!(from_str(src).is_err(), "lone high surrogate should fail");
    let lazy = from_str_lazy(src).unwrap();
    assert!(lazy.as_str().is_none(), "lazy decode should fail for lone surrogate");
}

#[test]
fn lone_low_surrogate_errors() {
    let src = r#""\uDE80""#;
    assert!(from_str(src).is_err(), "lone low surrogate should fail");
}

#[test]
fn unicode_escape_for_ascii_char_works() {
    let v = from_str(r#""ABC""#).unwrap().value;
    assert_eq!(as_str(&v), Some("ABC"));
}

#[test]
fn unicode_in_object_keys() {
    let v = from_str(r#"{"ключ": 1, "キー": 2, "🔑": 3}"#).unwrap().value;
    assert_eq!(member(&v, "ключ").and_then(as_i64), Some(1));
    assert_eq!(member(&v, "キー").and_then(as_i64), Some(2));
    assert_eq!(member(&v, "🔑").and_then(as_i64), Some(3));
}

#[test]
fn utf8_inside_comments_preserved() {
    let src = "// commentaire avec café 🚀\n42";
    let n = from_str(src).unwrap();
    assert_eq!(n.trivia.len(), 1);
    assert_eq!(n.trivia[0].text(), " commentaire avec café 🚀");
}

#[test]
fn reject_unescaped_control_character() {
    let src = "\"line\nbreak\"";
    assert!(from_str(src).is_err());
    assert!(from_str_lazy(src).is_err());
}

#[test]
fn escape_all_rfc_controls() {
    let v = from_str(r#""\" \\ \/ \b \f \n \r \t""#).unwrap().value;
    assert_eq!(as_str(&v), Some("\" \\ / \u{08} \u{0c} \n \r \t"));
}
