//! Parser error paths.

#[test]
fn test_parser_errors() {
    // String errors
    assert!(jwc::from_str("\"unterminated").is_err());
    assert!(jwc::from_str("\"\\\"").is_err()); // EOF after \
    let _ = jwc::from_str("\"\\x\""); // Invalid escape sequence acts as identity in this parser

    // Number errors
    assert!(jwc::from_str("-").is_err());
    assert!(jwc::from_str("1.2.3").is_err()); // Will parse 1., then err or fail.

    // Comment errors
    assert!(jwc::from_str("/* unterminated").is_err());
    assert!(jwc::from_str("/").is_err());
    assert!(jwc::from_str("/a").is_err());

    // Object errors
    assert!(jwc::from_str("{").is_err()); // EOF in object
    assert!(jwc::from_str("{\"a\"}").is_err()); // missing :
    assert!(jwc::from_str("{a: 1}").is_err()); // unquoted key
    assert!(jwc::from_str("{\"a\": 1 ]").is_err()); // expected , or }
    assert!(jwc::from_str("{\"a\" , 1}").is_err()); // bad colon
    assert!(jwc::from_str("{\"a\" /*/} 1}").is_err()); // bad comment before colon

    // Array errors
    assert!(jwc::from_str("[").is_err()); // EOF in array
    assert!(jwc::from_str("[1 }").is_err()); // expected , or ]

    // General unexpected chars
    assert!(jwc::from_str("}").is_err());
    assert!(jwc::from_str("truX").is_err());
    assert!(jwc::from_str("falsX").is_err());
    assert!(jwc::from_str("nulX").is_err());
    assert!(jwc::from_str("t").is_err());
    assert!(jwc::from_str("f").is_err());
    assert!(jwc::from_str("n").is_err());

    assert!(jwc::from_str("\n\n\u{2028}").is_err()); // some whitespace or unhandled > 127

    // Structured parse error preserves line/col.
    let err = jwc::from_str("\n\n\"unterm").unwrap_err();
    match err {
        jwc::Error::Parse { line, .. } => assert_eq!(line, 3),
        other => panic!("expected Error::Parse, got {other:?}"),
    }

    // Valid string escapes to cover match arms
    let valid_str = "\"\\b\\f\\n\\r\\t\\/\\\\\"";
    assert!(jwc::from_str(valid_str).is_ok());

    // Number slow path / error at EOF
    assert!(jwc::from_str("1e").is_err());

    // Invalid characters inside strings or structures
    assert!(jwc::from_str("{\"a\": \x01}").is_err());
    assert!(jwc::from_str("[\x01]").is_err());
    assert!(jwc::from_str("\x01").is_err());
}
