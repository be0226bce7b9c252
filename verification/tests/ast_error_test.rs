//! Comments and errors.

use jwc::{Error, Trivia};

#[test]
fn ast_trivia_from_owned_string_is_line() {
    let owned = String::from(" hi");
    let t: Trivia = owned.into();
    assert!(t.is_line());
    assert_eq!(t.text(), " hi");
}

#[test]
fn ast_trivia_is_line_is_block_text() {
    let l = Trivia::line("x");
    assert!(l.is_line());
    assert!(!l.is_block());
    assert_eq!(l.text(), "x");

    let b = Trivia::block("y");
    assert!(b.is_block());
    assert!(!b.is_line());
    assert_eq!(b.text(), "y");
}

#[test]
fn trivia_content_is_verbatim_no_stripping() {
    let t = Trivia::line("//hi");
    assert_eq!(t.text(), "//hi");
    let rendered = t.to_string();
    assert_eq!(rendered, "////hi");
}

#[test]
fn error_display_is_useful() {
    let e = Error::parse(3, 7, "unexpected char");
    assert_eq!(e.to_string(), "unexpected char at 3:7");

    let e = Error::missing_field("port");
    assert_eq!(e.to_string(), "missing field `port`");

    let e = Error::ty("bool", "number");
    assert_eq!(e.to_string(), "expected bool, got number");
}

#[test]
fn trivia_conversions() {
    let mut t = Trivia::line(" a");
    assert_eq!(t.as_line_comment(), Some(" a".to_string()));
    assert_eq!(t.as_block_comment(), None);
    t.make_block_comment();
    assert_eq!(t, Trivia::BlockComment(" a".to_string()));
    assert_eq!(t.to_string(), "/* a*/");
    t.make_line_comment();
    assert_eq!(t, Trivia::LineComment(" a".to_string()));
}

#[test]
fn error_constructors_and_text() {
    assert_eq!(Error::ty_at("bool", "null", "/a").to_string(), "expected bool, got null at /a");
    assert_eq!(Error::pointer("/x", "not found").to_string(), "pointer error at /x: not found");
    assert_eq!(Error::patch("/y", "bad op").to_string(), "patch error at /y: bad op");
    assert_eq!(Error::custom("plain").to_string(), "plain");
}
