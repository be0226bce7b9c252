//! Deferred values: a value kept as its source text until it is asked for,
//! then parsed once with [`from_str`] and kept.

use vstd::prelude::*;
use vstd::utf8::*;
use crate::ast::{copy_value, LazyValue, LazyView, Node, Value, ValueView};
use crate::error::Error;
use crate::parser::{from_str, owned_document, owned_reports};

verus! {

/// The name of a value's kind, as type errors show it.
pub open spec fn kind_name(v: ValueView) -> Seq<char> {
    match v {
        ValueView::Null => "null"@,
        ValueView::Bool(_) => "bool"@,
        ValueView::Number(_) => "number"@,
        ValueView::String(_) => "string"@,
        ValueView::Array(_) => "array"@,
        ValueView::Object(_) => "object"@,
        ValueView::Lazy(_) => "lazy"@,
    }
}

/// The name of a value's kind (see [`kind_name`]).
pub fn value_kind(v: &Value) -> (r: &'static str)
    ensures
        r@ == kind_name(v@),
{
    match v {
        Value::Null => "null",
        Value::Bool(_) => "bool",
        Value::Number(_) => "number",
        Value::String(_) => "string",
        Value::Array(_) => "array",
        Value::Object(_) => "object",
        Value::Lazy(_) => "lazy",
    }
}

/// The deferred text is short enough to be parsed: its UTF-8 encoding fits
/// in an `isize`.
pub open spec fn raw_fits(l: LazyView) -> bool {
    match l {
        LazyView::Unknown(raw) => encode_utf8(raw).len() <= isize::MAX,
        LazyView::UnknownObject(raw) => encode_utf8(raw).len() <= isize::MAX,
        LazyView::UnknownVector(raw) => encode_utf8(raw).len() <= isize::MAX,
        LazyView::Parsed(_) => true,
    }
}

/// A parsed value is of the kind named `expected` (`None`: any kind will do).
pub open spec fn thawed_kind_ok(expected: Option<Seq<char>>, v: ValueView) -> bool {
    match expected {
        None => true,
        Some(k) => kind_name(v) == k,
    }
}

/// What `thaw` does with deferred text `raw` that must hold a value of the
/// kind `expected` (`None`: any kind), given the result `r` and the deferred
/// value `after` it leaves: a parse failure is reported as [`from_str`]
/// reports it and leaves the value as it was; a value of another kind is a
/// type error (`expected {kind}, got {kind}`) and leaves it as it was; any
/// other value is returned and kept as `Parsed`.
pub open spec fn thaw_outcome(
    raw: Seq<char>,
    expected: Option<Seq<char>>,
    before: LazyView,
    r: Result<Value, Error>,
    after: LazyView,
) -> bool {
    match owned_document(encode_utf8(raw)) {
        Err(f) => r matches Err(e) && owned_reports(encode_utf8(raw), f, e) && after == before,
        Ok(n) => if thawed_kind_ok(expected, n.value) {
            r matches Ok(x) && x@ == n.value && after == LazyView::Parsed(n.value)
        } else {
            &&& r matches Err(e)
            &&& e matches Error::Type { expected: x, got: g, path }
            &&& Some(x@) == expected
            &&& g@ == kind_name(n.value)
            &&& path@.len() == 0
            &&& after == before
        },
    }
}

impl LazyValue {
    /// Deferred text of any kind.
    pub fn unknown(source: &str) -> (r: Self)
        ensures
            r@ == LazyView::Unknown(source@),
    {
        LazyValue::Unknown(source.to_owned())
    }

    /// Deferred text that must hold an object.
    pub fn unknown_object(source: &str) -> (r: Self)
        ensures
            r@ == LazyView::UnknownObject(source@),
    {
        LazyValue::UnknownObject(source.to_owned())
    }

    /// Deferred text that must hold an array.
    pub fn unknown_vector(source: &str) -> (r: Self)
        ensures
            r@ == LazyView::UnknownVector(source@),
    {
        LazyValue::UnknownVector(source.to_owned())
    }

    /// Parses the deferred text once and keeps the result: a `Parsed` value
    /// is returned as it is; deferred text is parsed with [`from_str`], and
    /// text declared to hold an object or an array must hold one (else a
    /// type error `expected object, got array`, and so on). On any error the
    /// value stays as it was. The value is returned as a copy.
    pub fn thaw(&mut self) -> (r: Result<Value, Error>)
        requires
            raw_fits(old(self)@),
        ensures
            match old(self)@ {
                LazyView::Parsed(v) => r matches Ok(x) && x@ == v && final(self)@ == old(self)@,
                LazyView::Unknown(raw) => thaw_outcome(raw, None, old(self)@, r, final(self)@),
                LazyView::UnknownObject(raw) => thaw_outcome(
                    raw,
                    Some("object"@),
                    old(self)@,
                    r,
                    final(self)@,
                ),
                LazyView::UnknownVector(raw) => thaw_outcome(
                    raw,
                    Some("array"@),
                    old(self)@,
                    r,
                    final(self)@,
                ),
            },
    {
        let (expected, parsed): (Option<&'static str>, crate::error::Result<Node>) = match &*self {
            LazyValue::Parsed(v) => {
                return Ok(copy_value(v));
            },
            LazyValue::Unknown(raw) => (None, from_str(raw.as_str())),
            LazyValue::UnknownObject(raw) => (Some("object"), from_str(raw.as_str())),
            LazyValue::UnknownVector(raw) => (Some("array"), from_str(raw.as_str())),
        };
        let node = match parsed {
            Ok(n) => n,
            Err(e) => {
                return Err(e);
            },
        };
        let value = node.value;
        let got = value_kind(&value);
        match expected {
            Some(k) => {
                if !crate::keys::str_eq(k, got) {
                    return Err(Error::ty(k, got));
                }
            },
            None => {},
        }
        let out = copy_value(&value);
        *self = LazyValue::Parsed(value);
        Ok(out)
    }
}

} // verus!
