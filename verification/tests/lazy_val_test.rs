//! The lazy tree: parsing, accessors, escapes, comments and errors.

use jwc::{Error, LazyVal, Trivia, from_str_lazy};

#[test]
fn scalars() {
    assert!(matches!(from_str_lazy("null").unwrap().value, LazyVal::Null));
    assert!(matches!(from_str_lazy("true").unwrap().value, LazyVal::Bool(true)));
    assert!(matches!(from_str_lazy("42").unwrap().value, LazyVal::Number("42")));
    assert!(matches!(from_str_lazy(r#""hello""#).unwrap().value, LazyVal::String("hello")));
}

#[test]
fn get_is_log_n_and_requires_no_index_step() {
    let src = r#"{"port": 8080, "name": "svc", "tls": true}"#;
    let v = from_str_lazy(src).unwrap();
    assert_eq!(v.get("port").and_then(|v| v.as_exact_i64()), Some(8080));
    assert_eq!(v.get("name").and_then(|v| v.as_str()).as_deref(), Some("svc"));
    assert_eq!(v.get("tls").and_then(|v| v.as_bool()), Some(true));
    assert!(v.get("missing").is_none());
}

#[test]
fn object_members_are_sorted_by_key() {
    let v = from_str_lazy(r#"{"zz": 0, "aa": 1, "mm": 2}"#).unwrap();
    let keys: Vec<&str> = v.iter_object().map(|(k, _)| k).collect();
    assert_eq!(keys, vec!["aa", "mm", "zz"]);
}

#[test]
fn escaped_string_decodes_on_demand() {
    let v = from_str_lazy(r#""a\nb""#).unwrap();
    assert_eq!(v.as_str().as_deref(), Some("a\nb"));
}

#[test]
fn nested_get_uses_binary_search_at_each_level() {
    let src = r#"{"outer": {"inner": [1, 2, 3]}}"#;
    let v = from_str_lazy(src).unwrap();
    let inner = v.get("outer").unwrap().get("inner").unwrap();
    assert_eq!(inner.at(2).and_then(|x| x.as_exact_i64()), Some(3));
}

#[test]
fn array_indexing() {
    let v = from_str_lazy("[10, 20, 30]").unwrap();
    assert_eq!(v.at(0).and_then(|x| x.as_exact_i64()), Some(10));
    assert_eq!(v.at(2).and_then(|x| x.as_exact_i64()), Some(30));
    assert!(v.at(3).is_none());
}

#[test]
fn escaped_key_is_decoded_and_sorted_correctly() {
    let v = from_str_lazy(r#"{"é": 1, "a": 2}"#).unwrap();
    assert_eq!(v.get("a").and_then(|x| x.as_exact_i64()), Some(2));
    assert_eq!(v.get("é").and_then(|x| x.as_exact_i64()), Some(1));
}

#[test]
fn reject_trailing_junk() {
    assert!(from_str_lazy("42 garbage").is_err());
}

#[test]
fn reject_unterminated_string() {
    assert!(from_str_lazy(r#""unterm"#).is_err());
}

#[test]
fn parser_core_scan_string_trailing_backslash_and_unterminated() {
    assert!(from_str_lazy(r#""abc\"#).is_err());
    assert!(from_str_lazy(r#""abc"#).is_err());
    assert!(from_str_lazy(r#"{"\uZZZZ": 1}"#).is_err());
}

#[test]
fn lazyval_lowercase_hex_in_decode_escaped_and_hex4() {
    let v = from_str_lazy("\"\\uabcd\"").unwrap();
    assert_eq!(v.as_str().as_deref(), Some("\u{abcd}"));
    let v = from_str_lazy("\"\\uABCD\"").unwrap();
    assert_eq!(v.as_str().as_deref(), Some("\u{abcd}"));
}

#[test]
fn lazyval_false_keyword_and_object_eof_without_closer() {
    assert!(matches!(from_str_lazy("false").unwrap().value, LazyVal::Bool(false)));
    assert!(from_str_lazy(r#"{"a": 1"#).is_err());
}

#[test]
fn lazyval_iter_array_and_iter_object_on_scalars_yield_empty() {
    let v = from_str_lazy("1").unwrap();
    assert_eq!(v.iter_array().count(), 0);
    assert_eq!(v.iter_object().count(), 0);
}

#[test]
fn lazyval_iter_helpers_on_containers() {
    let v = from_str_lazy("[1, 2, 3]").unwrap();
    let sum: i64 = v.iter_array().filter_map(|n| n.as_exact_i64()).sum();
    assert_eq!(sum, 6);

    let v = from_str_lazy(r#"{"b": 2, "a": 1}"#).unwrap();
    let keys: Vec<&str> = v.iter_object().map(|(k, _)| k).collect();
    assert_eq!(keys, vec!["a", "b"]);
}

#[test]
fn lazyval_is_empty_and_len_on_containers_and_strings() {
    assert!(from_str_lazy("[]").unwrap().is_empty());
    assert!(from_str_lazy("{}").unwrap().is_empty());
    assert!(from_str_lazy(r#""""#).unwrap().is_empty());
    assert!(!from_str_lazy("[1]").unwrap().is_empty());
}

#[test]
fn lazyval_get_on_object_missing_and_non_object_both_none() {
    let v = from_str_lazy(r#"{"a": 1}"#).unwrap();
    assert!(v.get("b").is_none());
    let v = from_str_lazy("1").unwrap();
    assert!(v.get("a").is_none());
}

#[test]
fn lazyval_decode_escape_surrogate_pair_decodes_astral() {
    let v = from_str_lazy(r#""😀""#).unwrap();
    assert_eq!(v.as_str().as_deref(), Some("\u{1F600}"));

    let src = "\"\\uD83D\\uDE00\"";
    let v = from_str_lazy(src).unwrap();
    assert_eq!(v.as_str().as_deref(), Some("\u{1F600}"));
}

#[test]
fn lazyval_decode_escape_bad_low_in_surrogate_pair() {
    let v = from_str_lazy("\"\\uD83D\\u0041\"").unwrap();
    assert!(v.as_str().is_none());

    let v = from_str_lazy(r#""\uD83DA""#).unwrap();
    assert!(v.as_str().is_none());
}

#[test]
fn lazyval_decode_escape_every_kind() {
    let src = r#""\b\f\n\r\t\/\\\"""#;
    let v = from_str_lazy(src).unwrap();
    assert_eq!(v.as_str().as_deref(), Some("\u{08}\u{0c}\n\r\t/\\\""));

    let v = from_str_lazy(r#""A""#).unwrap();
    assert_eq!(v.as_str().as_deref(), Some("A"));

    let v = from_str_lazy(r#""😀""#).unwrap();
    assert_eq!(v.as_str().as_deref(), Some("\u{1F600}"));

    assert!(from_str_lazy(r#""\x""#).unwrap().as_str().is_none());
    assert!(from_str_lazy(r#""\u00ZZ""#).unwrap().as_str().is_none());
    assert!(from_str_lazy(r#""\uD83DA""#).unwrap().as_str().is_none());
    assert!(from_str_lazy(r#""\uDC00""#).unwrap().as_str().is_none());
    assert!(from_str_lazy(r#""\uD83D\uDCZZ""#).unwrap().as_str().is_none());
    assert!(from_str_lazy(r#"{"\uD800": 1}"#).is_err());
}

#[test]
fn lazyval_object_trailing_comment_attaches_to_last_entry_and_trailing_junk_errors() {
    let v = from_str_lazy(
        r#"{"a": 1 // trailing line
}"#,
    )
    .unwrap();
    let entries = v.as_object().unwrap();
    assert_eq!(entries.len(), 1);
    assert!(!entries[0].value.trivia.is_empty());

    assert!(from_str_lazy("[1] junk").is_err());
    assert!(from_str_lazy("[").is_err());
    assert!(from_str_lazy("[1").is_err());
    assert!(from_str_lazy("[1 2]").is_err());
    assert!(from_str_lazy("{").is_err());
    assert!(from_str_lazy("{1: 2}").is_err());
    assert!(from_str_lazy(r#"{"a" 1}"#).is_err());
    assert!(from_str_lazy(r#"{"a": 1 ; "b": 2}"#).is_err());
    assert!(from_str_lazy(r#"{"a": 1,"#).is_err());
    assert!(from_str_lazy(r#"{"a":"#).is_err());
    assert!(from_str_lazy("tree").is_err());
    assert!(from_str_lazy("flse").is_err());
    assert!(from_str_lazy("nope").is_err());
    assert!(from_str_lazy("@").is_err());
}

#[test]
fn lazyval_array_trailing_comment_attaches_to_last_element() {
    let v = from_str_lazy(
        r#"[1 /* inline */, 2 // end
]"#,
    )
    .unwrap();
    let items = v.as_array().unwrap();
    assert!(!items[1].trivia.is_empty());
}

#[test]
fn lazyval_deep_nesting_exceeds_max_depth_both_containers() {
    let a = "[".repeat(300);
    assert!(from_str_lazy(&a).is_err());

    let mut o = String::new();
    for _ in 0..200 {
        o.push('{');
        o.push_str("\"a\":");
    }
    o.push('1');
    assert!(from_str_lazy(&o).is_err());
}

#[test]
fn lazyval_root_trailing_trivia_attaches_to_root_node() {
    let v = from_str_lazy("42 // trailing\n").unwrap();
    assert!(!v.trivia.is_empty());
    assert!(matches!(v.value, LazyVal::Number("42")));
}

#[test]
fn lazynode_deref_to_lazyval_works() {
    let n = from_str_lazy(r#"{"a":1}"#).unwrap();
    assert!(matches!(&n.value, LazyVal::Object(_)));
    assert!(n.get("a").is_some());
}

#[test]
fn leading_line_comment_on_root() {
    let src = "// hello\n42";
    let n = from_str_lazy(src).expect("parse");
    assert_eq!(n.trivia.len(), 1, "root should have one trivia entry");
    assert_eq!(n.trivia[0], Trivia::LineComment(" hello".into()));
    assert_eq!(n.value.as_exact_i64(), Some(42));
}

#[test]
fn block_comment_between_object_key_and_value() {
    let src = r#"{"x" /* note */ : 1}"#;
    let n = from_str_lazy(src).expect("parse");
    let obj = n.value.as_object().expect("object");
    assert_eq!(obj.len(), 1);
    let entry = &obj[0];
    assert_eq!(entry.key.as_ref(), "x");
    assert!(
        entry.value.trivia.iter().any(|t| matches!(t, Trivia::BlockComment(s) if s == " note ")),
        "expected block comment on value node, got {:?}",
        entry.value.trivia
    );
    assert_eq!(entry.value.as_exact_i64(), Some(1));
}

#[test]
fn line_comment_before_array_element() {
    let src = "[\n  // first\n  1,\n  2\n]";
    let n = from_str_lazy(src).expect("parse");
    let arr = n.value.as_array().expect("array");
    assert_eq!(arr.len(), 2);
    assert!(
        arr[0].trivia.iter().any(|t| matches!(t, Trivia::LineComment(s) if s == " first")),
        "expected leading line comment on first element, got {:?}",
        arr[0].trivia
    );
}

#[test]
fn line_comment_before_object_key_becomes_key_trivia() {
    let src = "{\n  // pre-key\n  \"x\": 1\n}";
    let n = from_str_lazy(src).expect("parse");
    let obj = n.value.as_object().expect("object");
    assert_eq!(obj.len(), 1);
    let entry = &obj[0];
    assert_eq!(entry.key.as_ref(), "x");
    assert!(
        entry.key_trivia.iter().any(|t| matches!(t, Trivia::LineComment(s) if s == " pre-key")),
        "expected pre-key line comment on key_trivia, got {:?}",
        entry.key_trivia
    );
    assert!(
        entry.value.trivia.is_empty(),
        "value trivia should be empty when comment is before the key, got {:?}",
        entry.value.trivia
    );
    assert_eq!(entry.value.as_exact_i64(), Some(1));
}

fn nested_arrays(depth: usize) -> String {
    let mut s = String::new();
    for _ in 0..depth {
        s.push('[');
    }
    for _ in 0..depth {
        s.push(']');
    }
    s
}

#[test]
fn deep_nesting_past_cap_lazy_returns_error() {
    let src = nested_arrays(jwc::MAX_DEPTH + 1);
    match from_str_lazy(&src) {
        Err(Error::Parse { msg, .. }) => assert!(
            msg.contains("maximum nesting depth"),
            "unexpected parse error: {msg}"
        ),
        other => panic!("expected Parse error past MAX_DEPTH, got {other:?}"),
    }
}

const CROSS_VALIDATION_STRICT: &str = r#"{
    "meta": { "v": 1, "active": true, "tag": null },
    "items": [
        { "id": 1, "name": "alice", "score": 3.14 },
        { "id": 2, "name": "bob",   "score": -0.5e2 },
        { "id": 3, "name": "utf-é", "score": 0 }
    ],
    "escapes": "\" \\ \n \t é 🚀"
}"#;

#[test]
fn lazy_materialization_preserves_scalar_content() {
    let lv = from_str_lazy(CROSS_VALIDATION_STRICT).unwrap();
    let items = lv.get("items").unwrap();
    let first = items.at(0).unwrap();
    assert_eq!(first.get("name").and_then(|v| v.as_str()).as_deref(), Some("alice"));
    assert_eq!(first.get("id").and_then(|v| v.as_exact_i64()), Some(1));
    assert_eq!(
        lv.get("escapes").and_then(|v| v.as_str()).as_deref(),
        Some("\" \\ \n \t é 🚀")
    );
}

fn owned_member<'a>(v: &'a jwc::Value, key: &str) -> Option<&'a jwc::Value> {
    match v {
        jwc::Value::Object(ms) => ms.iter().find(|e| e.key == key).map(|e| &e.value.value),
        _ => None,
    }
}

fn owned_at(v: &jwc::Value, i: usize) -> Option<&jwc::Value> {
    match v {
        jwc::Value::Array(items) => items.get(i).map(|n| &n.value),
        _ => None,
    }
}

fn owned_i64(v: &jwc::Value) -> Option<i64> {
    match v {
        jwc::Value::Number(jwc::Number::Int(n)) => Some(*n),
        _ => None,
    }
}

#[test]
fn to_value_materializes() {
    let src = r#"{"a": 1, "b": [2, 3]}"#;
    let v = from_str_lazy(src).unwrap();
    let owned = v.to_value();
    assert_eq!(owned_member(&owned, "a").and_then(owned_i64), Some(1));
    assert_eq!(owned_member(&owned, "b").and_then(|b| owned_at(b, 1)).and_then(owned_i64), Some(3));
}
