//! Concrete instances of the library's laws.

use jwc::from_str_lazy;
use jwc::parser_core::fast_parse_int;
use jwc::pointer::{decode_token, encode_token};
use jwc::serializer::Indentation;

#[test]
fn integer_lexemes_are_an_optional_minus_and_digits() {
    assert_eq!(fast_parse_int(b"007"), Some(7));
    assert_eq!(fast_parse_int(b"-007"), Some(-7));
    assert_eq!(fast_parse_int(b"+7"), None);
    assert_eq!(fast_parse_int(b"-"), None);
    assert_eq!(fast_parse_int(b""), None);
    assert_eq!(fast_parse_int(b"7 "), None);
    assert_eq!(fast_parse_int(b"--7"), None);
}

#[test]
fn encoded_tokens_are_single_segments() {
    for token in ["a/b", "~", "~1", "/~0/", "plain", ""] {
        let e = encode_token(token);
        assert!(!e.contains('/'), "{token}");
        let bytes = e.as_bytes();
        for (i, b) in bytes.iter().enumerate() {
            if *b == b'~' {
                assert!(i + 1 < bytes.len() && (bytes[i + 1] == b'0' || bytes[i + 1] == b'1'));
            }
        }
        assert_eq!(decode_token(&e), token);
    }
}

#[test]
fn sorting_an_object_keeps_every_member() {
    let doc = from_str_lazy("{\"zz\": 0, /* c */ \"aa\": 1, \"mm\": 2, \"aa\": 3}").unwrap();
    let members = doc.value.as_object().unwrap();
    let keys: Vec<String> = members.iter().map(|m| m.key.as_ref().to_string()).collect();
    assert_eq!(keys, vec!["aa", "aa", "mm", "zz"]);
    let values: Vec<i64> = members.iter().map(|m| m.value.value.as_exact_i64().unwrap()).collect();
    assert_eq!(values, vec![1, 3, 2, 0]);
}

#[test]
fn blank_lines_of_unicode_spaces_are_skipped_when_detecting_indentation() {
    assert_eq!(Indentation::detect("{\n \u{a0}\u{3000}\n\t\"a\": 1\n}"), Indentation::Tabs);
    assert_eq!(Indentation::detect("{\n \u{a0}x\n\t\"a\": 1\n}"), Indentation::Spaces(1));
}

#[test]
fn strings_fail_to_decode_exactly_at_a_malformed_escape() {
    let read = |src: &str| from_str_lazy(src).unwrap().value.as_str();
    assert_eq!(read("\"a\\u0041\\n\"").as_deref(), Some("aA\n"));
    assert_eq!(read("\"\\ud83c\\udf89\"").as_deref(), Some("🎉"));
    assert_eq!(read("\"\\\\x\"").as_deref(), Some("\\x"));
    assert!(read("\"a\\x\"").is_none());
    assert!(read("\"\\udf89\"").is_none());
    assert!(read("\"\\ud83c!\"").is_none());
    assert!(read("\"\\ud83c\\u0041\"").is_none());
}
