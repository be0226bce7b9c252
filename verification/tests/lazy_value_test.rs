//! Deferred values: thawing, the declared kind, and how they are written.

use jwc::{Error, FormatOptions, LazyValue, Node, Number, Value};

#[test]
fn thaw_is_idempotent() {
    let mut v = LazyValue::unknown("42");
    let once = v.thaw().unwrap().clone();
    let twice = v.thaw().unwrap().clone();
    assert_eq!(once, twice);
    assert!(matches!(v, LazyValue::Parsed(_)));
}

#[test]
fn typed_shape_enforcement() {
    let mut obj = LazyValue::unknown_object("{\"x\":1}");
    assert!(obj.thaw().is_ok());

    let mut arr_bad = LazyValue::unknown_object("[1,2]");
    let err = arr_bad.thaw().unwrap_err();
    assert!(
        matches!(err, Error::Type { expected, got, .. } if expected == "object" && got == "array")
    );
}

#[test]
fn lazy_value_renders_raw_source_if_unthawed() {
    let v = Value::from(LazyValue::unknown("{ /* keep */ \"x\": 1 }"));
    let rendered = v.to_string();
    assert!(rendered.contains("/* keep */"));
}

#[test]
fn serializer_lazy_variants_render_raw_and_parsed() {
    let raw = Value::Lazy(Box::new(LazyValue::unknown("{\"x\":1}")));
    let s = Node::new(raw).to_formatted_string(FormatOptions::default());
    assert!(s.contains("\"x\""));

    let raw = Value::Lazy(Box::new(LazyValue::unknown_object("{}")));
    let s = Node::new(raw).to_formatted_string(FormatOptions::default());
    assert_eq!(s, "{}");

    let raw = Value::Lazy(Box::new(LazyValue::unknown_vector("[1,2]")));
    let s = Node::new(raw).to_formatted_string(FormatOptions::default());
    assert_eq!(s, "[1,2]");

    let parsed = Value::Lazy(Box::new(LazyValue::Parsed(Value::from(42))));
    let s = Node::new(parsed).to_formatted_string(FormatOptions::default());
    assert_eq!(s, "42");
}

#[test]
fn lazyvalue_thaw_object_and_vector_and_mismatch() {
    let mut ok_obj = LazyValue::unknown_object("{\"a\": 1}");
    assert!(ok_obj.thaw().is_ok());

    let mut ok_vec = LazyValue::unknown_vector("[1,2]");
    assert!(ok_vec.thaw().is_ok());

    let mut bad = LazyValue::unknown_object("true");
    assert!(bad.thaw().is_err());

    let mut bad = LazyValue::unknown_vector("{}");
    assert!(bad.thaw().is_err());
}

#[test]
fn lazyvalue_thaw_already_parsed_short_circuits() {
    let mut already = LazyValue::Parsed(Value::from(7));
    let v = already.thaw().unwrap();
    assert_eq!(v, Value::Number(Number::Int(7)));
    let v = already.thaw().unwrap();
    assert_eq!(v, Value::Number(Number::Int(7)));
}

#[test]
fn thaw_unknown_value() {
    let mut value = LazyValue::unknown("123");
    assert_eq!(value.thaw().expect("should thaw"), Value::Number(Number::Int(123)));
}

#[test]
fn thaw_unknown_object_and_vector() {
    let mut object = LazyValue::unknown_object("{\"x\": 1}");
    assert!(matches!(object.thaw().expect("object should thaw"), Value::Object(_)));

    let mut vector = LazyValue::unknown_vector("[1, 2, 3]");
    assert!(matches!(vector.thaw().expect("array should thaw"), Value::Array(_)));
}

#[test]
fn parsed_lazy_value_works_in_ast() {
    let lazy = LazyValue::unknown("true");
    let node = Node::new(Value::from(lazy));
    let rendered = node.to_string();
    assert_eq!(rendered, "true");
}

#[test]
fn thaw_failures_leave_the_text_in_place() {
    let mut broken = LazyValue::unknown("[1,");
    let err = broken.thaw().unwrap_err();
    assert_eq!(err.to_string(), "Unexpected EOF in array at 1:4");
    assert_eq!(broken, LazyValue::Unknown("[1,".to_string()));

    let mut wrong = LazyValue::unknown_vector("{\"a\": 1}");
    assert_eq!(wrong.thaw().unwrap_err().to_string(), "expected array, got object");
    assert_eq!(wrong, LazyValue::UnknownVector("{\"a\": 1}".to_string()));

    let mut ok = LazyValue::unknown_vector(" [true] ");
    assert_eq!(
        ok.thaw().unwrap(),
        Value::Array(vec![Node::new(Value::Bool(true))])
    );
    assert!(matches!(ok, LazyValue::Parsed(Value::Array(_))));
}
