//! Comments before a value keep their place when the document is written
//! again.

#[test]
fn line_comment_between_colon_and_value_reindents_the_value() {
    let node = jwc::from_str("{\n  \"a\": // note\n  1\n}").unwrap();
    let out = jwc::to_string_pretty(&node, Some("  ")).unwrap();
    assert_eq!(out, "{\n  \"a\": // note\n  1\n}");
    assert_eq!(jwc::from_str(&out).unwrap(), node);
}

#[test]
fn leading_line_comments_are_indented_at_every_depth() {
    let node = jwc::from_str("{\"a\": {\"b\": [\n// deep\n1]}}").unwrap();
    let out = jwc::to_string_pretty(&node, Some("  ")).unwrap();
    assert_eq!(out, "{\n  \"a\": {\n    \"b\": [\n      // deep\n      1\n    ]\n  }\n}");
}
