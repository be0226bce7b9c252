//! What a patch writes reads back through its path.

use jwc::{from_str, PatchOperation, Value};

fn doc() -> Value {
    from_str(r#"{"a": {"list": [1, 2, 3]}, "b": "text", "a~b": true}"#).unwrap().value
}

#[test]
fn an_added_value_reads_back() {
    for path in ["/c", "/a/list/0", "/a/list/3", "/a/list/1", "/b", "/a~0b", "/a/x~1y"] {
        let mut v = doc();
        let val = Value::from(7);
        v.apply_patch(vec![PatchOperation::Add { path: path.to_string(), value: val.clone() }])
            .unwrap();
        assert_eq!(v.pointer(path), Some(&val), "path {path}");
    }
    let mut v = doc();
    v.apply_patch(vec![PatchOperation::Add { path: String::new(), value: Value::Null }]).unwrap();
    assert_eq!(v.pointer(""), Some(&Value::Null));
}

#[test]
fn appending_with_a_dash_reads_back_at_the_end() {
    let mut v = doc();
    v.apply_patch(vec![PatchOperation::Add {
        path: "/a/list/-".to_string(),
        value: Value::from(9),
    }])
    .unwrap();
    assert_eq!(v.pointer("/a/list/-"), None);
    assert_eq!(v.pointer("/a/list/3"), Some(&Value::from(9)));
}

#[test]
fn a_moved_value_reads_back_where_it_went() {
    let mut v = doc();
    let before = v.pointer("/a/list").cloned();
    v.apply_patch(vec![PatchOperation::Move { from: "/a/list".to_string(), path: "/c".to_string() }])
        .unwrap();
    assert_eq!(v.pointer("/c").cloned(), before);
    assert_eq!(v.pointer("/a/list"), None);
}

#[test]
fn a_copied_value_reads_back_in_both_places() {
    let mut v = doc();
    let before = v.pointer("/a/list/2").cloned();
    v.apply_patch(vec![PatchOperation::Copy { from: "/a/list/2".to_string(), path: "/a/list/0".to_string() }])
        .unwrap();
    assert_eq!(v.pointer("/a/list/0").cloned(), before);
    assert_eq!(v.pointer("/a/list/3").cloned(), before);
}
