//! JSON Pointer tokens and patch paths.

use jwc::patch::split_path;
use jwc::pointer::{decode_token, encode_token, tokens};

#[test]
fn decode_and_encode_tokens() {
    assert_eq!(decode_token("a~1b"), "a/b");
    assert_eq!(decode_token("m~0n"), "m~n");
    assert_eq!(decode_token("~01"), "~1");
    assert_eq!(encode_token("a/b"), "a~1b");
    assert_eq!(encode_token("m~n"), "m~0n");
    for t in ["", "~", "/", "~1", "~0/", "a~/b~~//", "plain"] {
        assert_eq!(decode_token(&encode_token(t)), t);
    }
}

#[test]
fn pointer_tokens() {
    assert_eq!(tokens(""), Some(vec![]));
    assert_eq!(tokens("a/b"), None);
    assert_eq!(tokens("/"), Some(vec![String::new()]));
    assert_eq!(tokens("/a/b~1c"), Some(vec!["a".to_string(), "b~1c".to_string()]));
    assert_eq!(tokens("/a//"), Some(vec!["a".to_string(), String::new(), String::new()]));
}

#[test]
fn split_paths() {
    assert_eq!(split_path("/foo"), Ok((String::new(), "foo".to_string())));
    assert_eq!(split_path("/foo/bar"), Ok(("/foo".to_string(), "bar".to_string())));
    assert_eq!(split_path("/a/b~1c"), Ok(("/a".to_string(), "b/c".to_string())));
    assert_eq!(split_path("nope"), Err("Invalid path".to_string()));
}
