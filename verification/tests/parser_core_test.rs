//! Integer lexemes and error positions of the shared parser core.

use jwc::parser_core::{ParserCore, fast_parse_int};
use jwc::Error;

#[test]
fn parses_i64_min() {
    assert_eq!(fast_parse_int(b"-9223372036854775808"), Some(i64::MIN));
}

#[test]
fn parses_i64_max() {
    assert_eq!(fast_parse_int(b"9223372036854775807"), Some(i64::MAX));
}

#[test]
fn overflow_past_i64_min_returns_none() {
    assert_eq!(fast_parse_int(b"-9223372036854775809"), None);
}

#[test]
fn overflow_past_i64_max_returns_none() {
    assert_eq!(fast_parse_int(b"9223372036854775808"), None);
}

#[test]
fn empty_and_nondigit_return_none() {
    assert_eq!(fast_parse_int(b""), None);
    assert_eq!(fast_parse_int(b"-"), None);
    assert_eq!(fast_parse_int(b"12x"), None);
}

#[test]
fn lift_err_fallback_when_message_has_no_position_suffix() {
    let core = ParserCore::new("abc");
    let err = core.lift_err("no suffix here".into());
    match err {
        Error::Parse { line, col, msg } => {
            assert!(msg.contains("no suffix here"));
            assert_eq!((line, col), (1, 1));
        }
        other => panic!("unexpected: {other:?}"),
    }

    let err = core.lift_err("broken at foo:bar".into());
    match err {
        Error::Parse { msg, .. } => assert!(msg.contains("broken at foo:bar")),
        other => panic!("unexpected: {other:?}"),
    }
}

#[test]
fn lift_err_splits_position_suffix() {
    let core = ParserCore::new("abc");
    match core.lift_err("unexpected EOF at 3:14".into()) {
        Error::Parse { line, col, msg } => {
            assert_eq!((line, col), (3, 14));
            assert_eq!(msg, "unexpected EOF");
        }
        other => panic!("unexpected: {other:?}"),
    }
}
