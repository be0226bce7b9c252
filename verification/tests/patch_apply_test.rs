//! Writing through JSON Pointers and applying JSON Patch operations.

use jwc::{parser, Error, Node, ObjectEntry, PatchOperation, Value};

fn obj(members: Vec<(&str, Value)>) -> Value {
    Value::Object(
        members.into_iter().map(|(k, v)| ObjectEntry::new(k.to_string(), Node::new(v))).collect(),
    )
}

fn arr(items: Vec<Value>) -> Value {
    Value::Array(items.into_iter().map(Node::new).collect())
}

fn text(s: &str) -> Value {
    Value::String(s.to_string())
}

fn parse(input: &str) -> Value {
    let mut parser = parser::Parser::new(input);
    let node: Node = parser.parse().unwrap();
    node.value
}

fn array_len(v: &Value, path: &str) -> Option<usize> {
    match v.pointer(path) {
        Some(Value::Array(items)) => Some(items.len()),
        _ => None,
    }
}

// ---------- pointer_mut ----------

#[test]
fn test_pointer_errors() {
    let mut v = Value::from(42);
    assert_eq!(v.pointer("invalid"), None);
    assert_eq!(v.pointer_mut("invalid"), None);

    let mut arr = Value::Array(vec![Node::new(Value::from(1))]);
    assert_eq!(arr.pointer("/1"), None);
    assert_eq!(arr.pointer("/invalid"), None);
    assert_eq!(arr.pointer_mut("/1"), None);
    assert_eq!(arr.pointer_mut("/invalid"), None);

    let mut obj = Value::Object(vec![]);
    assert_eq!(obj.pointer_mut("/missing"), None);

    let mut num = Value::from(1);
    assert_eq!(num.pointer("/any"), None);
    assert_eq!(num.pointer_mut("/any"), None);
}

#[test]
fn test_pointer_mut_bounds() {
    let mut arr = Value::Array(vec![]);
    assert_eq!(arr.pointer_mut("/0"), None);
    assert_eq!(arr.pointer_mut("/invalid"), None);
}

#[test]
fn test_pointer_mut_success_array() {
    let mut arr = Value::Array(vec![Node::new(Value::from(1))]);
    if let Some(v) = arr.pointer_mut("/0") {
        *v = Value::from(2);
    }
    assert_eq!(arr.pointer("/0"), Some(&Value::from(2)));
}

#[test]
fn pointer_mut_mutates_in_place() {
    let mut v = obj(vec![("a", arr(vec![Value::from(1), Value::from(2), Value::from(3)]))]);
    if let Some(n) = v.pointer_mut("/a/1") {
        *n = Value::from(99);
    }
    assert_eq!(v.pointer("/a/1"), Some(&Value::from(99)));
}

#[test]
fn node_pointer_mut_keeps_comments_on_the_way() {
    let mut node = jwc::from_str("{\n  // about a\n  \"a\": [1, /* two */ 2]\n}").unwrap();
    if let Some(n) = node.pointer_mut("/a/1") {
        n.value = Value::from(20);
    }
    let two = node.pointer("/a/1").unwrap();
    assert_eq!(two.value, Value::from(20));
    assert_eq!(two.trivia, vec![jwc::Trivia::BlockComment(" two ".to_string())]);
    let Value::Object(members) = &node.value else { panic!("object expected") };
    assert_eq!(members[0].key_trivia, vec![jwc::Trivia::LineComment(" about a".to_string())]);
    assert!(node.pointer_mut("/a/5").is_none());
    assert!(node.pointer_mut("a").is_none());
}

// ---------- RFC 6901 examples ----------

#[test]
fn test_json_pointer_rf6901() {
    let input = r#"
    {
      "foo": ["bar", "baz"],
      "": 0,
      "a/b": 1,
      "c%d": 2,
      "e^f": 3,
      "g|h": 4,
      "i\\j": 5,
      "k\"l": 6,
      " ": 7,
      "m~n": 8
   }
   "#;
    let val = parse(input);

    assert_eq!(val.pointer("").unwrap(), &val);
    assert_eq!(val.pointer("/foo").unwrap(), &parse("[\"bar\", \"baz\"]"));
    assert_eq!(val.pointer("/foo/0").unwrap(), &Value::String("bar".to_string()));
    assert_eq!(val.pointer("/").unwrap(), &Value::Number(0.into()));
    assert_eq!(val.pointer("/a~1b").unwrap(), &Value::Number(1.into()));
    assert_eq!(val.pointer("/c%d").unwrap(), &Value::Number(2.into()));
    assert_eq!(val.pointer("/e^f").unwrap(), &Value::Number(3.into()));
    assert_eq!(val.pointer("/g|h").unwrap(), &Value::Number(4.into()));
    assert_eq!(val.pointer("/i\\j").unwrap(), &Value::Number(5.into()));
    assert_eq!(val.pointer("/k\"l").unwrap(), &Value::Number(6.into()));
    assert_eq!(val.pointer("/ ").unwrap(), &Value::Number(7.into()));
    assert_eq!(val.pointer("/m~0n").unwrap(), &Value::Number(8.into()));
}

// ---------- RFC 6902 operations ----------

#[test]
fn test_patch_add() {
    let mut doc = parse(r#"{ "foo": "bar"}"#);
    let patch = vec![PatchOperation::Add {
        path: "/baz".to_string(),
        value: Value::String("qux".to_string()),
    }];
    doc.apply_patch(patch).unwrap();
    assert_eq!(doc.pointer("/baz").unwrap(), &Value::String("qux".to_string()));
}

#[test]
fn test_patch_remove() {
    let mut doc = parse(r#"{ "foo": "bar", "baz": "qux"}"#);
    let patch = vec![PatchOperation::Remove { path: "/baz".to_string() }];
    doc.apply_patch(patch).unwrap();
    assert!(doc.pointer("/baz").is_none());
}

#[test]
fn test_patch_replace() {
    let mut doc = parse(r#"{ "foo": "bar"}"#);
    let patch = vec![PatchOperation::Replace {
        path: "/foo".to_string(),
        value: Value::String("baz".to_string()),
    }];
    doc.apply_patch(patch).unwrap();
    assert_eq!(doc.pointer("/foo").unwrap(), &Value::String("baz".to_string()));
}

#[test]
fn test_patch_move() {
    let mut doc = parse(r#"{ "foo": { "bar": "baz", "waldo": "fred" }, "qux": "corge" }"#);
    let patch = vec![PatchOperation::Move {
        from: "/foo/waldo".to_string(),
        path: "/qux".to_string(),
    }];
    doc.apply_patch(patch).unwrap();
    assert_eq!(doc.pointer("/qux").unwrap(), &Value::String("fred".to_string()));
    assert!(doc.pointer("/foo/waldo").is_none());
}

#[test]
fn test_patch_copy() {
    let mut doc = parse(r#"{ "foo": "bar" }"#);
    let patch = vec![PatchOperation::Copy {
        from: "/foo".to_string(),
        path: "/baz".to_string(),
    }];
    doc.apply_patch(patch).unwrap();
    assert_eq!(doc.pointer("/foo").unwrap(), &Value::String("bar".to_string()));
    assert_eq!(doc.pointer("/baz").unwrap(), &Value::String("bar".to_string()));
}

#[test]
fn test_patch_test() {
    let mut doc = parse(r#"{ "baz": "qux", "foo": [ "a", 2, "c" ] }"#);
    let patch = vec![
        PatchOperation::Test {
            path: "/baz".to_string(),
            value: Value::String("qux".to_string()),
        },
        PatchOperation::Test {
            path: "/foo/1".to_string(),
            value: Value::Number(2.into()),
        },
    ];
    assert!(doc.apply_patch(patch).is_ok());

    let fail_patch = vec![PatchOperation::Test {
        path: "/baz".to_string(),
        value: Value::String("bar".to_string()),
    }];
    assert!(doc.apply_patch(fail_patch).is_err());
}

#[test]
fn test_patch_add_root() {
    let mut v = Value::from(1);
    v.apply_patch(vec![PatchOperation::Add { path: String::new(), value: Value::from(2) }])
        .unwrap();
    assert_eq!(v, Value::from(2));
}

#[test]
fn test_patch_add_array() {
    let mut v = Value::Array(vec![]);
    v.apply_patch(vec![PatchOperation::Add { path: "/-".to_string(), value: Value::from(1) }])
        .unwrap();
    assert_eq!(v.pointer("/0"), Some(&Value::from(1)));

    v.apply_patch(vec![PatchOperation::Add { path: "/0".to_string(), value: Value::from(2) }])
        .unwrap();
    assert_eq!(v.pointer("/0"), Some(&Value::from(2)));
    assert_eq!(v.pointer("/1"), Some(&Value::from(1)));

    assert!(
        v.apply_patch(vec![PatchOperation::Add { path: "/5".to_string(), value: Value::from(3) }])
            .is_err()
    );
    assert!(
        v.apply_patch(vec![PatchOperation::Add {
            path: "/invalid".to_string(),
            value: Value::from(3),
        }])
        .is_err()
    );
}

#[test]
fn test_patch_parent_errors() {
    let mut v = Value::from(1);
    assert!(
        v.apply_patch(vec![PatchOperation::Add { path: "/foo".to_string(), value: Value::from(1) }])
            .is_err()
    );
}

#[test]
fn test_patch_remove_errors() {
    let mut obj = Value::Object(vec![]);
    assert!(obj.apply_patch(vec![PatchOperation::Remove { path: "/foo".to_string() }]).is_err());

    let mut arr = Value::Array(vec![Node::new(Value::from(1))]);
    assert!(arr.apply_patch(vec![PatchOperation::Remove { path: "/1".to_string() }]).is_err());
    assert!(
        arr.apply_patch(vec![PatchOperation::Remove { path: "/invalid".to_string() }]).is_err()
    );

    let mut num = Value::from(1);
    assert!(num.apply_patch(vec![PatchOperation::Remove { path: "/test".to_string() }]).is_err());
}

#[test]
fn test_patch_remove_array() {
    let mut arr = Value::Array(vec![Node::new(Value::from(1))]);
    arr.apply_patch(vec![PatchOperation::Remove { path: "/0".to_string() }]).unwrap();
    assert_eq!(arr, Value::Array(vec![]));
}

#[test]
fn test_patch_invalid_path_split() {
    let mut v = Value::from(1);
    assert!(
        v.apply_patch(vec![PatchOperation::Add {
            path: "noshash".to_string(),
            value: Value::from(2),
        }])
        .is_err()
    );
}

#[test]
fn patch_add_to_object() {
    let mut v = obj(vec![("a", Value::from(1))]);
    v.apply_patch(vec![PatchOperation::Add { path: "/b".into(), value: Value::from(2) }]).unwrap();
    assert_eq!(v.pointer("/b"), Some(&Value::from(2)));
}

#[test]
fn patch_add_replaces_existing_key() {
    let mut v = obj(vec![("a", Value::from(1))]);
    v.apply_patch(vec![PatchOperation::Add { path: "/a".into(), value: Value::from(99) }])
        .unwrap();
    assert_eq!(v.pointer("/a"), Some(&Value::from(99)));
}

#[test]
fn patch_add_to_array_at_index_and_dash() {
    let mut v = obj(vec![("arr", arr(vec![Value::from(10), Value::from(20), Value::from(30)]))]);
    v.apply_patch(vec![PatchOperation::Add { path: "/arr/1".into(), value: Value::from(15) }])
        .unwrap();
    assert_eq!(v.pointer("/arr/1"), Some(&Value::from(15)));
    assert_eq!(array_len(&v, "/arr"), Some(4));

    v.apply_patch(vec![PatchOperation::Add { path: "/arr/-".into(), value: Value::from(40) }])
        .unwrap();
    assert_eq!(v.pointer("/arr/4"), Some(&Value::from(40)));
}

#[test]
fn patch_remove_from_object_and_array() {
    let mut v = obj(vec![
        ("a", Value::from(1)),
        ("b", Value::from(2)),
        ("arr", arr(vec![Value::from(10), Value::from(20), Value::from(30)])),
    ]);
    v.apply_patch(vec![PatchOperation::Remove { path: "/a".into() }]).unwrap();
    assert!(v.pointer("/a").is_none());

    v.apply_patch(vec![PatchOperation::Remove { path: "/arr/1".into() }]).unwrap();
    assert_eq!(array_len(&v, "/arr"), Some(2));
    assert_eq!(v.pointer("/arr/0"), Some(&Value::from(10)));
    assert_eq!(v.pointer("/arr/1"), Some(&Value::from(30)));
}

#[test]
fn patch_replace_existing() {
    let mut v = obj(vec![("a", Value::from(1))]);
    v.apply_patch(vec![PatchOperation::Replace { path: "/a".into(), value: text("x") }]).unwrap();
    assert_eq!(v.pointer("/a"), Some(&text("x")));
}

#[test]
fn patch_move_and_copy() {
    let mut v = obj(vec![("a", Value::from(1)), ("b", Value::from(2))]);
    v.apply_patch(vec![
        PatchOperation::Move { from: "/a".into(), path: "/c".into() },
        PatchOperation::Copy { from: "/b".into(), path: "/d".into() },
    ])
    .unwrap();
    assert!(v.pointer("/a").is_none());
    assert_eq!(v.pointer("/c"), Some(&Value::from(1)));
    assert_eq!(v.pointer("/b"), Some(&Value::from(2)));
    assert_eq!(v.pointer("/d"), Some(&Value::from(2)));
}

#[test]
fn patch_test_success_and_failure() {
    let mut v = obj(vec![("a", Value::from(1))]);
    v.apply_patch(vec![PatchOperation::Test { path: "/a".into(), value: Value::from(1) }])
        .unwrap();

    let err = v
        .apply_patch(vec![PatchOperation::Test { path: "/a".into(), value: Value::from(2) }])
        .unwrap_err();
    match err {
        Error::Patch { path, reason } => {
            assert_eq!(path, "/a");
            assert!(reason.contains("test failed"));
        },
        other => panic!("expected Error::Patch, got {other:?}"),
    }
}

#[test]
fn patch_missing_path_reports_structurally() {
    let mut v = obj(vec![("a", Value::from(1))]);
    let err = v
        .apply_patch(vec![PatchOperation::Replace { path: "/nope".into(), value: Value::from(2) }])
        .unwrap_err();
    match err {
        Error::Pointer { path, .. } => assert_eq!(path, "/nope"),
        other => panic!("expected Error::Pointer, got {other:?}"),
    }
}

#[test]
fn patch_invalid_array_index() {
    let mut v = obj(vec![("arr", arr(vec![Value::from(1), Value::from(2)]))]);
    let err = v
        .apply_patch(vec![PatchOperation::Add {
            path: "/arr/notanindex".into(),
            value: Value::from(9),
        }])
        .unwrap_err();
    assert!(matches!(err, Error::Patch { .. }));
}

#[test]
fn patch_errors_cover_each_branch() {
    let mut v = Value::Object(vec![]);
    let e = v
        .apply_patch(vec![PatchOperation::Add { path: "nope".into(), value: Value::from(1) }])
        .unwrap_err();
    assert!(matches!(e, Error::Pointer { .. }));

    let mut v = Value::Array(vec![]);
    let e = v
        .apply_patch(vec![PatchOperation::Add { path: "/x".into(), value: Value::from(1) }])
        .unwrap_err();
    assert!(matches!(e, Error::Patch { .. }));

    let mut v = Value::Array(vec![]);
    let e = v
        .apply_patch(vec![PatchOperation::Add { path: "/5".into(), value: Value::from(1) }])
        .unwrap_err();
    assert!(matches!(e, Error::Patch { .. }));

    let mut v = Value::Array(vec![]);
    v.apply_patch(vec![PatchOperation::Add { path: "/-".into(), value: Value::from(7) }]).unwrap();
    assert_eq!(array_len(&v, ""), Some(1));

    let mut v = Value::Object(vec![ObjectEntry::new("a".into(), Node::new(Value::from(1)))]);
    let e = v
        .apply_patch(vec![PatchOperation::Add { path: "/a/b".into(), value: Value::from(1) }])
        .unwrap_err();
    assert!(matches!(e, Error::Patch { .. }));

    let mut v = Value::Array(vec![Node::new(Value::from(1))]);
    let e = v.apply_patch(vec![PatchOperation::Remove { path: "/5".into() }]).unwrap_err();
    assert!(matches!(e, Error::Patch { .. }));
    let e = v.apply_patch(vec![PatchOperation::Remove { path: "/x".into() }]).unwrap_err();
    assert!(matches!(e, Error::Patch { .. }));

    let mut v = Value::Object(vec![]);
    let e = v.apply_patch(vec![PatchOperation::Remove { path: "/missing".into() }]).unwrap_err();
    assert!(matches!(e, Error::Patch { .. }));

    let mut v = Value::Object(vec![ObjectEntry::new("a".into(), Node::new(Value::from(1)))]);
    let e = v.apply_patch(vec![PatchOperation::Remove { path: "/a/b".into() }]).unwrap_err();
    assert!(matches!(e, Error::Patch { .. }));

    let mut v = Value::Object(vec![]);
    let e = v
        .apply_patch(vec![PatchOperation::Replace { path: "/missing".into(), value: Value::Null }])
        .unwrap_err();
    assert!(matches!(e, Error::Pointer { .. }));

    let mut v = Value::Object(vec![ObjectEntry::new("a".into(), Node::new(Value::from(1)))]);
    v.apply_patch(vec![PatchOperation::Copy { from: "/a".into(), path: "/b".into() }]).unwrap();
    assert_eq!(v.pointer("/b"), Some(&Value::from(1)));

    v.apply_patch(vec![PatchOperation::Move { from: "/b".into(), path: "/c".into() }]).unwrap();
    assert!(v.pointer("/b").is_none());
    assert_eq!(v.pointer("/c"), Some(&Value::from(1)));

    let e = v
        .apply_patch(vec![PatchOperation::Copy { from: "/zzz".into(), path: "/d".into() }])
        .unwrap_err();
    assert!(matches!(e, Error::Pointer { .. }));

    v.apply_patch(vec![PatchOperation::Test { path: "/a".into(), value: Value::from(1) }])
        .unwrap();
    let e = v
        .apply_patch(vec![PatchOperation::Test { path: "/a".into(), value: Value::from(999) }])
        .unwrap_err();
    assert!(matches!(e, Error::Patch { .. }));
    let e = v
        .apply_patch(vec![PatchOperation::Test { path: "/missing".into(), value: Value::Null }])
        .unwrap_err();
    assert!(matches!(e, Error::Pointer { .. }));

    let mut v = Value::from(1);
    v.apply_patch(vec![PatchOperation::Add { path: String::new(), value: Value::from(2) }])
        .unwrap();
    assert_eq!(v, Value::from(2));
}

#[test]
fn patch_replace_key_that_exists() {
    let mut v = Value::Object(vec![ObjectEntry::new("a".into(), Node::new(Value::from(1)))]);
    v.apply_patch(vec![PatchOperation::Replace { path: "/a".into(), value: Value::from(2) }])
        .unwrap();
    assert_eq!(v.pointer("/a"), Some(&Value::from(2)));
}

#[test]
fn patch_split_path_without_slash_errors() {
    let mut v = Value::Object(vec![]);
    let e = v.apply_patch(vec![PatchOperation::Remove { path: "noslash".into() }]).unwrap_err();
    assert!(matches!(e, Error::Pointer { .. }));
}

// ---------- What stays and what is reported ----------

#[test]
fn patch_stops_at_first_failure_keeping_earlier_work() {
    let mut v = obj(vec![("a", Value::from(1))]);
    let e = v
        .apply_patch(vec![
            PatchOperation::Add { path: "/b".into(), value: Value::from(2) },
            PatchOperation::Remove { path: "/zzz".into() },
            PatchOperation::Add { path: "/c".into(), value: Value::from(3) },
        ])
        .unwrap_err();
    assert_eq!(
        e,
        Error::Patch { path: "/zzz".to_string(), reason: "Key not found: zzz".to_string() }
    );
    assert_eq!(v.pointer("/b"), Some(&Value::from(2)));
    assert!(v.pointer("/c").is_none());
}

#[test]
fn patch_failure_reasons() {
    let mut v = obj(vec![("a", Value::from(1)), ("arr", arr(vec![]))]);
    let cases = vec![
        (
            PatchOperation::Add { path: "/x/y".into(), value: Value::Null },
            Error::Pointer { path: "/x/y".into(), reason: "Parent path not found: /x".into() },
        ),
        (
            PatchOperation::Add { path: "nope".into(), value: Value::Null },
            Error::Pointer { path: "nope".into(), reason: "Invalid path".into() },
        ),
        (
            PatchOperation::Add { path: "/arr/q".into(), value: Value::Null },
            Error::Patch { path: "/arr/q".into(), reason: "Invalid array index".into() },
        ),
        (
            PatchOperation::Add { path: "/arr/1".into(), value: Value::Null },
            Error::Patch { path: "/arr/1".into(), reason: "Array index out of bounds".into() },
        ),
        (
            PatchOperation::Remove { path: "/a/b".into() },
            Error::Patch { path: "/a/b".into(), reason: "Parent must be Object or Array".into() },
        ),
        (
            PatchOperation::Copy { from: "/q".into(), path: "/r".into() },
            Error::Pointer { path: "/q".into(), reason: "Path not found".into() },
        ),
        (
            PatchOperation::Test { path: "/a".into(), value: Value::from(2) },
            Error::Patch { path: "/a".into(), reason: "test failed: the values differ".into() },
        ),
    ];
    for (op, expected) in cases {
        assert_eq!(v.apply_patch(vec![op]).unwrap_err(), expected);
    }
    assert_eq!(v, obj(vec![("a", Value::from(1)), ("arr", arr(vec![]))]));
}

#[test]
fn patch_add_keeps_comments_of_replaced_member() {
    let mut v = jwc::from_str("{ \"a\": /* note */ 1 }").unwrap().value;
    v.apply_patch(vec![PatchOperation::Add { path: "/a".into(), value: Value::from(5) }]).unwrap();
    let Value::Object(members) = &v else { panic!("object expected") };
    assert_eq!(members[0].value.value, Value::from(5));
    assert_eq!(members[0].value.trivia, vec![jwc::Trivia::BlockComment(" note ".to_string())]);
}

#[test]
fn patch_test_compares_comments_too() {
    let mut v = jwc::from_str("{ \"a\": [/* c */ 1] }").unwrap().value;
    let bare = arr(vec![Value::from(1)]);
    assert!(v.apply_patch(vec![PatchOperation::Test { path: "/a".into(), value: bare }]).is_err());
    let copy = jwc::from_str("[/* c */ 1]").unwrap().value;
    assert!(v.apply_patch(vec![PatchOperation::Test { path: "/a".into(), value: copy }]).is_ok());
}

#[test]
fn patch_remove_then_add_back_restores() {
    let original = obj(vec![("a", Value::from(1)), ("arr", arr(vec![Value::from(5)]))]);
    let mut v = obj(vec![("a", Value::from(1)), ("arr", arr(vec![Value::from(5)]))]);
    v.apply_patch(vec![PatchOperation::Add { path: "/arr/0".into(), value: Value::from(4) }])
        .unwrap();
    v.apply_patch(vec![PatchOperation::Remove { path: "/arr/0".into() }]).unwrap();
    v.apply_patch(vec![PatchOperation::Add { path: "/b".into(), value: Value::Null }]).unwrap();
    v.apply_patch(vec![PatchOperation::Remove { path: "/b".into() }]).unwrap();
    assert_eq!(v, original);
}
