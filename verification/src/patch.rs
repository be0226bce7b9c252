//! JSON Patch (RFC 6902) paths: the parent path and the last reference
//! token of a path.

use vstd::prelude::*;
use crate::ast::{
    copy_value, EntryView, LazyValue, Node, NodeView, Number, ObjectEntry, Trivia, TriviaView, Value, ValueView,
    entry_views, lemma_array_value_view, lemma_object_value_view, node_views, trivia_view,
};
use crate::error::Error;
use crate::parser_core::{parse_usize_chars, parse_usize_text};
use crate::pointer::{
    char_from, child_of, decoded, lemma_char_from, lemma_member_index, lemma_member_index_keys,
    lemma_pointed_value, lemma_pointer_write_read, lemma_value_set_same, lemma_value_set_twice,
    lemma_value_write_read, member_index, path_tokens, pointed_value, split_on, value_at,
    value_set_at,
};
use crate::text;

verus! {

broadcast use vstd::string::group_string_axioms;

/// Offset of the last `/` in `s`, or -1.
pub open spec fn last_slash(s: Seq<char>) -> int
    decreases s.len(),
{
    if s.len() == 0 {
        -1
    } else if s.last() == '/' {
        s.len() - 1
    } else {
        last_slash(s.drop_last())
    }
}

pub proof fn lemma_last_slash(s: Seq<char>)
    ensures
        -1 <= last_slash(s) < s.len(),
        last_slash(s) >= 0 ==> s[last_slash(s)] == '/',
        forall|k: int| last_slash(s) < k < s.len() ==> #[trigger] s[k] != '/',
    decreases s.len(),
{
    if s.len() > 0 && s.last() != '/' {
        let t = s.drop_last();
        lemma_last_slash(t);
        assert forall|k: int| last_slash(s) < k < s.len() implies #[trigger] s[k] != '/' by {
            if k < t.len() {
                assert(s[k] == t[k]);
            }
        }
    }
}

/// Splits a path at its last `/`: the path before it, and the token after it
/// decoded (see [`decoded`]). A path without `/` is refused.
pub fn split_path(path: &str) -> (r: Result<(String, String), String>)
    ensures
        last_slash(path@) < 0 ==> (r matches Err(m) && m@ == "Invalid path"@),
        last_slash(path@) >= 0 ==> (r matches Ok((parent, key)) && parent@ == path@.take(
            last_slash(path@),
        ) && key@ == decoded(path@.skip(last_slash(path@) + 1))),
{
    let chars = text::chars_of(path);
    let n = chars.len();
    let mut i = n;
    proof {
        lemma_last_slash(path@);
        assert(chars@.take(n as int) =~= chars@);
    }
    while i > 0 && chars[i - 1] != '/'
        invariant
            chars@ == path@,
            n == chars@.len(),
            i <= n,
            last_slash(path@) == last_slash(chars@.take(i as int)),
        decreases i,
    {
        proof {
            assert(chars@.take(i as int).drop_last() =~= chars@.take(i - 1));
        }
        i -= 1;
    }
    if i == 0 {
        proof {
            assert(chars@.take(0) =~= seq![]);
        }
        return Err(text::to_owned_string("Invalid path"));
    }
    let idx = i - 1;
    proof {
        assert(chars@.take(i as int).last() == '/');
        assert(last_slash(path@) == idx);
    }
    let parent = text::string_from_chars(&chars, 0, idx);
    let raw = text::string_from_chars(&chars, idx + 1, n);
    let key = crate::pointer::decode_token(raw.as_str());
    proof {
        assert(chars@.subrange(0, idx as int) =~= path@.take(idx as int));
        assert(chars@.subrange(idx + 1, n as int) =~= path@.skip(idx + 1));
    }
    Ok((parent, key))
}


// ---------------------------------------------------------------------------
// Operations
// ---------------------------------------------------------------------------

/// One JSON Patch (RFC 6902) operation.
#[derive(Debug, PartialEq)]
pub enum PatchOperation {
    Add { path: String, value: Value },
    Remove { path: String },
    Replace { path: String, value: Value },
    Move { from: String, path: String },
    Copy { from: String, path: String },
    Test { path: String, value: Value },
}

/// A patch operation as the proofs see it.
pub enum PatchOpView {
    Add { path: Seq<char>, value: ValueView },
    Remove { path: Seq<char> },
    Replace { path: Seq<char>, value: ValueView },
    Move { from: Seq<char>, path: Seq<char> },
    Copy { from: Seq<char>, path: Seq<char> },
    Test { path: Seq<char>, value: ValueView },
}

impl View for PatchOperation {
    type V = PatchOpView;

    open spec fn view(&self) -> PatchOpView {
        match self {
            PatchOperation::Add { path, value } => PatchOpView::Add { path: path@, value: value@ },
            PatchOperation::Remove { path } => PatchOpView::Remove { path: path@ },
            PatchOperation::Replace { path, value } => PatchOpView::Replace {
                path: path@,
                value: value@,
            },
            PatchOperation::Move { from, path } => PatchOpView::Move { from: from@, path: path@ },
            PatchOperation::Copy { from, path } => PatchOpView::Copy { from: from@, path: path@ },
            PatchOperation::Test { path, value } => PatchOpView::Test { path: path@, value: value@ },
        }
    }
}

/// Why a patch stops: a path that leads nowhere (`Pointer`) or an
/// operation that cannot be done where it leads (`Patch`), each with the
/// operation's path and a reason.
pub enum PatchFailure {
    Pointer(Seq<char>, Seq<char>),
    Patch(Seq<char>, Seq<char>),
}

/// `e` is the error that reports `f`.
pub open spec fn reports_failure(e: Error, f: PatchFailure) -> bool {
    match f {
        PatchFailure::Pointer(path, reason) => e matches Error::Pointer { path: p, reason: r }
            && p@ == path && r@ == reason,
        PatchFailure::Patch(path, reason) => e matches Error::Patch { path: p, reason: r } && p@
            == path && r@ == reason,
    }
}

/// The parent path and the decoded last token of `path`; `None` when it has
/// no `/`.
pub open spec fn parent_and_key(path: Seq<char>) -> Option<(Seq<char>, Seq<char>)> {
    let i = last_slash(path);
    if i < 0 {
        None
    } else {
        Some((path.take(i), decoded(path.skip(i + 1))))
    }
}

/// A node holding `v`, with no comments and no comma.
pub open spec fn bare_node(v: ValueView) -> NodeView {
    NodeView { value: v, trivia: seq![], comma: false }
}

/// What adding `val` under `key` makes of `parent`, or why it cannot be
/// done: in an object the first member with that key gets the value (its
/// comments stay) or a new member comes last; in an array `-` appends and
/// an index up to the length inserts there.
pub open spec fn added(parent: ValueView, key: Seq<char>, val: ValueView) -> Result<
    ValueView,
    Seq<char>,
> {
    match parent {
        ValueView::Object(ms) => {
            let i = member_index(ms, key);
            if i >= 0 {
                Ok(
                    ValueView::Object(
                        ms.update(
                            i,
                            EntryView {
                                key: ms[i].key,
                                key_trivia: ms[i].key_trivia,
                                value: NodeView {
                                    value: val,
                                    trivia: ms[i].value.trivia,
                                    comma: ms[i].value.comma,
                                },
                            },
                        ),
                    ),
                )
            } else {
                Ok(
                    ValueView::Object(
                        ms.push(EntryView { key, key_trivia: seq![], value: bare_node(val) }),
                    ),
                )
            }
        },
        ValueView::Array(items) => if key == "-"@ {
            Ok(ValueView::Array(items.push(bare_node(val))))
        } else {
            match parse_usize_text(key) {
                None => Err("Invalid array index"@),
                Some(i) => if i > items.len() {
                    Err("Array index out of bounds"@)
                } else {
                    Ok(ValueView::Array(items.insert(i as int, bare_node(val))))
                },
            }
        },
        _ => Err("Parent must be Object or Array"@),
    }
}

/// Adding under an array of `n` elements: `-` appends; an index `i` up to
/// `n` inserts there, the elements from `i` on moving one place on; a larger
/// index is refused as out of bounds and a key that is no index as invalid.
pub proof fn lemma_add_to_array(items: Seq<NodeView>, key: Seq<char>, val: ValueView)
    ensures
        key == "-"@ ==> added(ValueView::Array(items), key, val) == Ok::<ValueView, Seq<char>>(
            ValueView::Array(items.push(bare_node(val))),
        ),
        key != "-"@ ==> match parse_usize_text(key) {
            None => added(ValueView::Array(items), key, val) == Err::<ValueView, Seq<char>>(
                "Invalid array index"@,
            ),
            Some(i) => if i > items.len() {
                added(ValueView::Array(items), key, val) == Err::<ValueView, Seq<char>>(
                    "Array index out of bounds"@,
                )
            } else {
                added(ValueView::Array(items), key, val) matches Ok(ValueView::Array(out)) && {
                    &&& out.len() == items.len() + 1
                    &&& out[i as int] == bare_node(val)
                    &&& forall|j: int| 0 <= j < i ==> #[trigger] out[j] == items[j]
                    &&& forall|j: int| i <= j < items.len() ==> out[j + 1] == #[trigger] items[j]
                }
            },
        },
{
}

/// What removing `key` makes of `parent` and the value taken out, or why it
/// cannot be done.
pub open spec fn removed(parent: ValueView, key: Seq<char>) -> Result<
    (ValueView, ValueView),
    Seq<char>,
> {
    match parent {
        ValueView::Object(ms) => {
            let i = member_index(ms, key);
            if i >= 0 {
                Ok((ValueView::Object(ms.remove(i)), ms[i].value.value))
            } else {
                Err("Key not found: "@ + key)
            }
        },
        ValueView::Array(items) => match parse_usize_text(key) {
            None => Err("Invalid array index"@),
            Some(i) => if i >= items.len() {
                Err("Array index out of bounds"@)
            } else {
                Ok((ValueView::Array(items.remove(i as int)), items[i as int].value))
            },
        },
        _ => Err("Parent must be Object or Array"@),
    }
}

/// The document after adding `val` at `path` (the empty path replaces the
/// whole document).
pub open spec fn add_at(v: ValueView, path: Seq<char>, val: ValueView) -> Result<
    ValueView,
    PatchFailure,
> {
    if path.len() == 0 {
        Ok(val)
    } else {
        match parent_and_key(path) {
            None => Err(PatchFailure::Pointer(path, "Invalid path"@)),
            Some((pp, key)) => match pointed_value(v, pp) {
                None => Err(PatchFailure::Pointer(path, "Parent path not found: "@ + pp)),
                Some(parent) => match added(parent, key, val) {
                    Err(m) => Err(PatchFailure::Patch(path, m)),
                    Ok(p2) => Ok(value_set_at(v, path_tokens(pp)->0, p2)),
                },
            },
        }
    }
}

/// The document after removing what `path` points to, and the value taken
/// out.
pub open spec fn remove_at(v: ValueView, path: Seq<char>) -> Result<
    (ValueView, ValueView),
    PatchFailure,
> {
    match parent_and_key(path) {
        None => Err(PatchFailure::Pointer(path, "Invalid path"@)),
        Some((pp, key)) => match pointed_value(v, pp) {
            None => Err(PatchFailure::Pointer(path, "Parent path not found: "@ + pp)),
            Some(parent) => match removed(parent, key) {
                Err(m) => Err(PatchFailure::Patch(path, m)),
                Ok((p2, out)) => Ok((value_set_at(v, path_tokens(pp)->0, p2), out)),
            },
        },
    }
}

/// The document after one operation, and whether it went through. A
/// failed operation leaves the document as it was, but for a `Move` whose
/// value was taken out and could not be put back.
pub open spec fn patch_step(v: ValueView, op: PatchOpView) -> (ValueView, Result<(), PatchFailure>) {
    match op {
        PatchOpView::Add { path, value } => match add_at(v, path, value) {
            Ok(v2) => (v2, Ok(())),
            Err(f) => (v, Err(f)),
        },
        PatchOpView::Remove { path } => match remove_at(v, path) {
            Ok((v2, _)) => (v2, Ok(())),
            Err(f) => (v, Err(f)),
        },
        PatchOpView::Replace { path, value } => match pointed_value(v, path) {
            None => (v, Err(PatchFailure::Pointer(path, "Path not found"@))),
            Some(_) => (value_set_at(v, path_tokens(path)->0, value), Ok(())),
        },
        PatchOpView::Move { from, path } => match remove_at(v, from) {
            Err(f) => (v, Err(f)),
            Ok((v2, out)) => match add_at(v2, path, out) {
                Ok(v3) => (v3, Ok(())),
                Err(f) => (v2, Err(f)),
            },
        },
        PatchOpView::Copy { from, path } => match pointed_value(v, from) {
            None => (v, Err(PatchFailure::Pointer(from, "Path not found"@))),
            Some(x) => match add_at(v, path, x) {
                Ok(v2) => (v2, Ok(())),
                Err(f) => (v, Err(f)),
            },
        },
        PatchOpView::Test { path, value } => match pointed_value(v, path) {
            None => (v, Err(PatchFailure::Pointer(path, "Path not found"@))),
            Some(x) => if x == value {
                (v, Ok(()))
            } else {
                (v, Err(PatchFailure::Patch(path, "test failed: the values differ"@)))
            },
        },
    }
}

/// The document after the operations `ops` in order, stopping at the first
/// that fails.
pub open spec fn patch_all(v: ValueView, ops: Seq<PatchOpView>) -> (ValueView, Result<(), PatchFailure>)
    decreases ops.len(),
{
    if ops.len() == 0 {
        (v, Ok(()))
    } else {
        match patch_step(v, ops[0]) {
            (v2, Ok(())) => patch_all(v2, ops.drop_first()),
            (v2, Err(f)) => (v2, Err(f)),
        }
    }
}


// ---------------------------------------------------------------------------
// Comparing and copying values
// ---------------------------------------------------------------------------

/// Whether two comments are the same.
fn same_trivia(a: &Trivia, b: &Trivia) -> (r: bool)
    ensures
        r == (a@ == b@),
{
    match (a, b) {
        (Trivia::LineComment(x), Trivia::LineComment(y)) => crate::keys::str_eq(x.as_str(), y.as_str()),
        (Trivia::BlockComment(x), Trivia::BlockComment(y)) => crate::keys::str_eq(x.as_str(), y.as_str()),
        _ => false,
    }
}

/// Whether two lists of comments are the same.
fn same_trivia_list(a: &Vec<Trivia>, b: &Vec<Trivia>) -> (r: bool)
    ensures
        r == (trivia_view(a@) == trivia_view(b@)),
{
    if a.len() != b.len() {
        proof {
            assert(trivia_view(a@).len() != trivia_view(b@).len());
        }
        return false;
    }
    let mut i: usize = 0;
    while i < a.len()
        invariant
            a@.len() == b@.len(),
            i <= a@.len(),
            forall|j: int| 0 <= j < i ==> #[trigger] a@[j]@ == b@[j]@,
        decreases a.len() - i,
    {
        if !same_trivia(&a[i], &b[i]) {
            proof {
                assert(trivia_view(a@)[i as int] != trivia_view(b@)[i as int]);
            }
            return false;
        }
        i += 1;
    }
    proof {
        assert(trivia_view(a@) =~= trivia_view(b@));
    }
    true
}

/// Whether two numbers are the same: the same integer, or the same decimal
/// text.
fn same_number(a: &Number, b: &Number) -> (r: bool)
    ensures
        r == (crate::ast::number_view(*a) == crate::ast::number_view(*b)),
{
    match (a, b) {
        (Number::Int(x), Number::Int(y)) => *x == *y,
        (Number::Float(x), Number::Float(y)) => crate::keys::str_eq(x.as_str(), y.as_str()),
        _ => false,
    }
}

/// Whether two values are the same, the comments inside included.
fn same_value(a: &Value, b: &Value) -> (r: bool)
    ensures
        r == (a@ == b@),
    decreases a,
{
    match (a, b) {
        (Value::Null, Value::Null) => true,
        (Value::Bool(x), Value::Bool(y)) => *x == *y,
        (Value::Number(x), Value::Number(y)) => same_number(x, y),
        (Value::String(x), Value::String(y)) => crate::keys::str_eq(x.as_str(), y.as_str()),
        (Value::Array(xs), Value::Array(ys)) => {
            proof {
                lemma_array_value_view(*xs);
                lemma_array_value_view(*ys);
            }
            if xs.len() != ys.len() {
                proof {
                    assert(node_views(xs@).len() != node_views(ys@).len());
                }
                return false;
            }
            let mut i: usize = 0;
            while i < xs.len()
                invariant
                    *a == Value::Array(*xs),
                    *b == Value::Array(*ys),
                    a@ == ValueView::Array(node_views(xs@)),
                    b@ == ValueView::Array(node_views(ys@)),
                    xs@.len() == ys@.len(),
                    i <= xs@.len(),
                    forall|j: int| 0 <= j < i ==> #[trigger] xs@[j]@ == ys@[j]@,
                decreases xs.len() - i,
            {
                let same = same_value(&xs[i].value, &ys[i].value) && same_trivia_list(
                    &xs[i].trivia,
                    &ys[i].trivia,
                ) && xs[i].comma == ys[i].comma;
                if !same {
                    proof {
                        assert(node_views(xs@)[i as int] != node_views(ys@)[i as int]);
                    }
                    return false;
                }
                i += 1;
            }
            proof {
                assert(node_views(xs@) =~= node_views(ys@));
            }
            true
        },
        (Value::Object(xs), Value::Object(ys)) => {
            proof {
                lemma_object_value_view(*xs);
                lemma_object_value_view(*ys);
            }
            if xs.len() != ys.len() {
                proof {
                    assert(entry_views(xs@).len() != entry_views(ys@).len());
                }
                return false;
            }
            let mut i: usize = 0;
            while i < xs.len()
                invariant
                    *a == Value::Object(*xs),
                    *b == Value::Object(*ys),
                    a@ == ValueView::Object(entry_views(xs@)),
                    b@ == ValueView::Object(entry_views(ys@)),
                    xs@.len() == ys@.len(),
                    i <= xs@.len(),
                    forall|j: int| 0 <= j < i ==> #[trigger] xs@[j]@ == ys@[j]@,
                decreases xs.len() - i,
            {
                let same = crate::keys::str_eq(xs[i].key.as_str(), ys[i].key.as_str())
                    && same_trivia_list(&xs[i].key_trivia, &ys[i].key_trivia) && same_value(
                    &xs[i].value.value,
                    &ys[i].value.value,
                ) && same_trivia_list(&xs[i].value.trivia, &ys[i].value.trivia)
                    && xs[i].value.comma == ys[i].value.comma;
                if !same {
                    proof {
                        assert(entry_views(xs@)[i as int] != entry_views(ys@)[i as int]);
                    }
                    return false;
                }
                i += 1;
            }
            proof {
                assert(entry_views(xs@) =~= entry_views(ys@));
            }
            true
        },
        (Value::Lazy(x), Value::Lazy(y)) => match (&**x, &**y) {
            (LazyValue::Unknown(p), LazyValue::Unknown(q)) => crate::keys::str_eq(
                p.as_str(),
                q.as_str(),
            ),
            (LazyValue::UnknownObject(p), LazyValue::UnknownObject(q)) => crate::keys::str_eq(
                p.as_str(),
                q.as_str(),
            ),
            (LazyValue::UnknownVector(p), LazyValue::UnknownVector(q)) => crate::keys::str_eq(
                p.as_str(),
                q.as_str(),
            ),
            (LazyValue::Parsed(v), LazyValue::Parsed(w)) => same_value(v, w),
            _ => false,
        },
        _ => false,
    }
}

// ---------------------------------------------------------------------------
// Adding and removing under a parent
// ---------------------------------------------------------------------------

/// Reads `key` as an array index (see [`parse_usize_text`]).
fn index_of_key(key: &str) -> (r: Option<usize>)
    ensures
        match parse_usize_text(key@) {
            Some(i) => r matches Some(j) && j == i,
            None => r is None,
        },
{
    let chars = text::chars_of(key);
    let idx = parse_usize_chars(&chars, 0, chars.len());
    proof {
        assert(chars@.subrange(0, chars@.len() as int) =~= key@);
    }
    idx
}

/// Adds `value` under `key` in `parent` (see [`added`]); on failure
/// `parent` stays as it was and the reason is returned.
fn add_child(parent: &mut Value, key: &str, value: Value) -> (r: Result<(), String>)
    ensures
        match added(old(parent)@, key@, value@) {
            Ok(p2) => r is Ok && final(parent)@ == p2,
            Err(m) => r matches Err(e) && e@ == m && final(parent)@ == old(parent)@,
        },
{
    let mut taken = Value::Null;
    std::mem::swap(&mut taken, parent);
    match taken {
        Value::Object(mut members) => {
            let ghost before = members@;
            proof {
                lemma_object_value_view(members);
                lemma_member_index(entry_views(members@), key@);
            }
            match crate::pointer::member_position(&members, key) {
                Some(i) => {
                    let mut e = members.remove(i);
                    let ghost old_e = e;
                    e.value.value = value;
                    members.insert(i, e);
                    proof {
                        assert(members@ =~= before.update(i as int, e));
                        lemma_object_value_view(members);
                        assert(entry_views(before)[i as int] == old_e@);
                        assert(entry_views(members@) =~= entry_views(before).update(
                            i as int,
                            e@,
                        ));
                    }
                },
                None => {
                    let e = ObjectEntry::new(text::to_owned_string(key), Node::new(value));
                    members.push(e);
                    proof {
                        lemma_object_value_view(members);
                        assert(e@.key_trivia =~= seq![]);
                        assert(e@.value.trivia =~= seq![]);
                        assert(entry_views(members@) =~= entry_views(before).push(e@));
                    }
                },
            }
            *parent = Value::Object(members);
            Ok(())
        },
        Value::Array(mut elements) => {
            let ghost before = elements@;
            proof {
                lemma_array_value_view(elements);
            }
            if crate::keys::str_eq(key, "-") {
                let n = Node::new(value);
                elements.push(n);
                proof {
                    lemma_array_value_view(elements);
                    assert(n@.trivia =~= seq![]);
                    assert(node_views(elements@) =~= node_views(before).push(n@));
                }
                *parent = Value::Array(elements);
                return Ok(());
            }
            match index_of_key(key) {
                None => {
                    *parent = Value::Array(elements);
                    Err(text::to_owned_string("Invalid array index"))
                },
                Some(i) => if i > elements.len() {
                    *parent = Value::Array(elements);
                    Err(text::to_owned_string("Array index out of bounds"))
                } else {
                    let n = Node::new(value);
                    elements.insert(i, n);
                    proof {
                        lemma_array_value_view(elements);
                        assert(n@.trivia =~= seq![]);
                        assert(node_views(elements@) =~= node_views(before).insert(i as int, n@));
                    }
                    *parent = Value::Array(elements);
                    Ok(())
                },
            }
        },
        other => {
            *parent = other;
            Err(text::to_owned_string("Parent must be Object or Array"))
        },
    }
}

/// Removes `key` from `parent` and hands back its value (see
/// [`removed`]); on failure `parent` stays as it was and the reason is
/// returned.
fn remove_child(parent: &mut Value, key: &str) -> (r: Result<Value, String>)
    ensures
        match removed(old(parent)@, key@) {
            Ok((p2, out)) => r matches Ok(v) && v@ == out && final(parent)@ == p2,
            Err(m) => r matches Err(e) && e@ == m && final(parent)@ == old(parent)@,
        },
{
    let mut taken = Value::Null;
    std::mem::swap(&mut taken, parent);
    match taken {
        Value::Object(mut members) => {
            let ghost before = members@;
            proof {
                lemma_object_value_view(members);
                lemma_member_index(entry_views(members@), key@);
            }
            match crate::pointer::member_position(&members, key) {
                Some(i) => {
                    let e = members.remove(i);
                    proof {
                        lemma_object_value_view(members);
                        assert(entry_views(before)[i as int] == e@);
                        assert(entry_views(members@) =~= entry_views(before).remove(i as int));
                    }
                    *parent = Value::Object(members);
                    Ok(e.value.value)
                },
                None => {
                    *parent = Value::Object(members);
                    let mut m = text::to_owned_string("Key not found: ");
                    text::append_str(&mut m, key);
                    Err(m)
                },
            }
        },
        Value::Array(mut elements) => {
            let ghost before = elements@;
            proof {
                lemma_array_value_view(elements);
            }
            match index_of_key(key) {
                None => {
                    *parent = Value::Array(elements);
                    Err(text::to_owned_string("Invalid array index"))
                },
                Some(i) => if i >= elements.len() {
                    *parent = Value::Array(elements);
                    Err(text::to_owned_string("Array index out of bounds"))
                } else {
                    let n = elements.remove(i);
                    proof {
                        lemma_array_value_view(elements);
                        assert(node_views(before)[i as int] == n@);
                        assert(node_views(elements@) =~= node_views(before).remove(i as int));
                    }
                    *parent = Value::Array(elements);
                    Ok(n.value)
                },
            }
        },
        other => {
            *parent = other;
            Err(text::to_owned_string("Parent must be Object or Array"))
        },
    }
}


// ---------------------------------------------------------------------------
// Applying a patch
// ---------------------------------------------------------------------------

/// The models of a list of operations.
pub open spec fn ops_view(ops: Seq<PatchOperation>) -> Seq<PatchOpView> {
    ops.map_values(|o: PatchOperation| o@)
}

/// `text` followed by `tail`.
fn joined(text: &str, tail: &str) -> (r: String)
    ensures
        r@ == text@ + tail@,
{
    let mut m = text::to_owned_string(text);
    text::append_str(&mut m, tail);
    m
}

impl Value {
    /// Adds `value` at `path` (see [`add_at`]); a failure leaves the value
    /// as it was.
    fn patch_add(&mut self, path: &str, value: Value) -> (r: Result<(), Error>)
        ensures
            match add_at(old(self)@, path@, value@) {
                Ok(v2) => r is Ok && final(self)@ == v2,
                Err(f) => r matches Err(e) && reports_failure(e, f) && final(self)@ == old(self)@,
            },
    {
        if text::chars_of(path).len() == 0 {
            *self = value;
            return Ok(());
        }
        let (pp, key) = match split_path(path) {
            Ok(parts) => parts,
            Err(_) => {
                return Err(Error::pointer(path, "Invalid path"));
            },
        };
        proof {
            lemma_pointed_value(self@, pp@);
            if let Some(x) = pointed_value(self@, pp@) {
                lemma_value_set_same(self@, path_tokens(pp@)->0);
            }
        }
        let parent = match self.pointer_mut(pp.as_str()) {
            Some(p) => p,
            None => {
                let m = joined("Parent path not found: ", pp.as_str());
                return Err(Error::pointer(path, m.as_str()));
            },
        };
        match add_child(parent, key.as_str(), value) {
            Ok(()) => Ok(()),
            Err(m) => Err(Error::patch(path, m.as_str())),
        }
    }

    /// Removes what `path` points to and hands back its value (see
    /// [`remove_at`]); a failure leaves the value as it was.
    fn patch_remove(&mut self, path: &str) -> (r: Result<Value, Error>)
        ensures
            match remove_at(old(self)@, path@) {
                Ok((v2, out)) => r matches Ok(x) && x@ == out && final(self)@ == v2,
                Err(f) => r matches Err(e) && reports_failure(e, f) && final(self)@ == old(self)@,
            },
    {
        let (pp, key) = match split_path(path) {
            Ok(parts) => parts,
            Err(_) => {
                return Err(Error::pointer(path, "Invalid path"));
            },
        };
        proof {
            lemma_pointed_value(self@, pp@);
            if let Some(x) = pointed_value(self@, pp@) {
                lemma_value_set_same(self@, path_tokens(pp@)->0);
            }
        }
        let parent = match self.pointer_mut(pp.as_str()) {
            Some(p) => p,
            None => {
                let m = joined("Parent path not found: ", pp.as_str());
                return Err(Error::pointer(path, m.as_str()));
            },
        };
        match remove_child(parent, key.as_str()) {
            Ok(v) => Ok(v),
            Err(m) => Err(Error::patch(path, m.as_str())),
        }
    }

    /// Replaces what `path` points to by `value`; a failure leaves the
    /// value as it was.
    fn patch_replace(&mut self, path: &str, value: Value) -> (r: Result<(), Error>)
        ensures
            match pointed_value(old(self)@, path@) {
                Some(_) => r is Ok && final(self)@ == value_set_at(
                    old(self)@,
                    path_tokens(path@)->0,
                    value@,
                ),
                None => r matches Err(e) && reports_failure(
                    e,
                    PatchFailure::Pointer(path@, "Path not found"@),
                ) && final(self)@ == old(self)@,
            },
    {
        match self.pointer_mut(path) {
            Some(target) => {
                *target = value;
                Ok(())
            },
            None => Err(Error::pointer(path, "Path not found")),
        }
    }

    /// Applies one operation (see [`patch_step`]).
    fn apply_one(&mut self, op: PatchOperation) -> (r: crate::error::Result<()>)
        ensures
            final(self)@ == patch_step(old(self)@, op@).0,
            match patch_step(old(self)@, op@).1 {
                Ok(()) => r is Ok,
                Err(f) => r matches Err(e) && reports_failure(e, f),
            },
    {
        match op {
            PatchOperation::Add { path, value } => {
                match self.patch_add(path.as_str(), value) {
                    Ok(()) => {},
                    Err(e) => {
                        return Err(e);
                    },
                }
            },
            PatchOperation::Remove { path } => {
                match self.patch_remove(path.as_str()) {
                    Ok(_) => {},
                    Err(e) => {
                        return Err(e);
                    },
                }
            },
            PatchOperation::Replace { path, value } => {
                match self.patch_replace(path.as_str(), value) {
                    Ok(()) => {},
                    Err(e) => {
                        return Err(e);
                    },
                }
            },
            PatchOperation::Move { from, path } => {
                let out = match self.patch_remove(from.as_str()) {
                    Ok(v) => v,
                    Err(e) => {
                        return Err(e);
                    },
                };
                match self.patch_add(path.as_str(), out) {
                    Ok(()) => {},
                    Err(e) => {
                        return Err(e);
                    },
                }
            },
            PatchOperation::Copy { from, path } => {
                let copy = match self.pointer(from.as_str()) {
                    Some(v) => copy_value(v),
                    None => {
                        return Err(Error::pointer(from.as_str(), "Path not found"));
                    },
                };
                match self.patch_add(path.as_str(), copy) {
                    Ok(()) => {},
                    Err(e) => {
                        return Err(e);
                    },
                }
            },
            PatchOperation::Test { path, value } => {
                match self.pointer(path.as_str()) {
                    Some(v) => {
                        if !same_value(v, &value) {
                            return Err(
                                Error::patch(path.as_str(), "test failed: the values differ"),
                            );
                        }
                    },
                    None => {
                        return Err(Error::pointer(path.as_str(), "Path not found"));
                    },
                }
            },
        }
        Ok(())
    }

    /// Applies JSON Patch (RFC 6902) operations in order (see
    /// [`patch_all`]), stopping at the first that fails; what the
    /// operations before it did stays done.
    #[verifier::rlimit(40)]
    pub fn apply_patch(&mut self, patch: Vec<PatchOperation>) -> (r: crate::error::Result<()>)
        ensures
            final(self)@ == patch_all(old(self)@, ops_view(patch@)).0,
            match patch_all(old(self)@, ops_view(patch@)).1 {
                Ok(()) => r is Ok,
                Err(f) => r matches Err(e) && reports_failure(e, f),
            },
    {
        let ghost ops = ops_view(patch@);
        let ghost n = patch@.len();
        let mut rest = patch;
        let mut stack: Vec<PatchOperation> = Vec::new();
        while rest.len() > 0
            invariant
                rest@.len() + stack@.len() == n,
                ops == ops_view(patch@),
                n == patch@.len(),
                forall|j: int| 0 <= j < rest@.len() ==> #[trigger] rest@[j] == patch@[j],
                forall|j: int| 0 <= j < stack@.len() ==> #[trigger] stack@[j] == patch@[n - 1 - j],
            decreases rest.len(),
        {
            let op = rest.pop().unwrap();
            stack.push(op);
        }
        let ghost start = self@;
        proof {
            assert(ops.skip(0) =~= ops);
        }
        loop
            invariant
                ops == ops_view(patch@),
                n == patch@.len(),
                stack@.len() <= n,
                forall|j: int|
                    0 <= j < stack@.len() ==> #[trigger] stack@[j]@ == ops[n - 1 - j],
                start == old(self)@,
                patch_all(start, ops) == patch_all(self@, ops.skip(n - stack@.len())),
            decreases stack.len(),
        {
            let ghost k = n - stack@.len();
            if stack.len() == 0 {
                proof {
                    assert(ops.skip(k) =~= seq![]);
                }
                return Ok(());
            }
            let op = stack.pop().unwrap();
            proof {
                assert(ops.skip(k)[0] == op@);
                assert(ops.skip(k).drop_first() =~= ops.skip(k + 1));
            }
            match self.apply_one(op) {
                Ok(()) => {},
                Err(e) => {
                    return Err(e);
                },
            }
        }
    }
}


// ---------------------------------------------------------------------------
// Laws
// ---------------------------------------------------------------------------

/// A member appended under a key no member has is the one the key finds.
proof fn lemma_member_index_push(ms: Seq<EntryView>, e: EntryView)
    requires
        member_index(ms, e.key) < 0,
    ensures
        member_index(ms.push(e), e.key) == ms.len(),
{
    lemma_member_index(ms, e.key);
    lemma_member_index(ms.push(e), e.key);
    let m = member_index(ms.push(e), e.key);
    if 0 <= m < ms.len() {
        assert(ms.push(e)[m] == ms[m]);
    }
    if m < 0 {
        assert(ms.push(e)[ms.len() as int].key == e.key);
    }
}

/// Removing what was just added under a parent gives the parent back, with
/// the added value: for an array at an index, and for an object under a key
/// none of its members had.
proof fn lemma_removed_added(parent: ValueView, key: Seq<char>, val: ValueView)
    requires
        added(parent, key, val) is Ok,
        key != "-"@,
        parent matches ValueView::Object(ms) ==> member_index(ms, key) < 0,
    ensures
        removed(added(parent, key, val)->Ok_0, key) == Ok::<(ValueView, ValueView), Seq<char>>(
            (parent, val),
        ),
{
    match parent {
        ValueView::Object(ms) => {
            let e = EntryView { key, key_trivia: seq![], value: bare_node(val) };
            lemma_member_index_push(ms, e);
            assert(ms.push(e).remove(ms.len() as int) =~= ms);
        },
        ValueView::Array(items) => {
            let i = parse_usize_text(key)->Some_0;
            assert(items.insert(i as int, bare_node(val)).remove(i as int) =~= items);
        },
        _ => {},
    }
}

/// `remove` undoes `add`: removing at a path right after adding `val` there
/// gives the document back, with `val`. This holds where the add inserted
/// something new: at an array index (not `-`, which only appends) or under
/// a key the parent object did not have (adding under a present key
/// replaces its value, and removing then takes the member out).
pub proof fn lemma_remove_undoes_add(v: ValueView, path: Seq<char>, val: ValueView)
    requires
        add_at(v, path, val) is Ok,
        parent_and_key(path) matches Some((pp, key)) && key != "-"@ && (pointed_value(v, pp)
            matches Some(ValueView::Object(ms)) ==> member_index(ms, key) < 0),
    ensures
        remove_at(add_at(v, path, val)->Ok_0, path) == Ok::<(ValueView, ValueView), PatchFailure>(
            (v, val),
        ),
{
    let (pp, key) = parent_and_key(path)->Some_0;
    let ts = path_tokens(pp)->0;
    let parent = pointed_value(v, pp)->Some_0;
    let p2 = added(parent, key, val)->Ok_0;
    let v2 = value_set_at(v, ts, p2);
    lemma_pointed_value(v, pp);
    lemma_pointed_value(v2, pp);
    lemma_value_write_read(v, ts, p2);
    lemma_removed_added(parent, key, val);
    lemma_value_set_twice(v, ts, p2, parent);
    lemma_value_set_same(v, ts);
}

/// After a `Test` the document is as it was, whether the test passes or
/// not; it passes exactly when `path` points to a value equal to `value`.
pub proof fn lemma_test_keeps_document(v: ValueView, path: Seq<char>, value: ValueView)
    ensures
        patch_step(v, PatchOpView::Test { path, value }).0 == v,
        patch_step(v, PatchOpView::Test { path, value }).1 is Ok <==> pointed_value(v, path)
            == Some(value),
{
}

/// Reading back a `Replace`: where `path` points to a value, after the
/// replace it points to the new one.
pub proof fn lemma_replace_then_read(v: ValueView, path: Seq<char>, value: ValueView)
    requires
        pointed_value(v, path) is Some,
    ensures
        patch_step(v, PatchOpView::Replace { path, value }).1 is Ok,
        pointed_value(patch_step(v, PatchOpView::Replace { path, value }).0, path) == Some(value),
{
    lemma_pointer_write_read(v, path, value);
}


// ---------------------------------------------------------------------------
// Reading back what a patch wrote
// ---------------------------------------------------------------------------

/// Where the first `c` from `i` on is, when it is at `k` (or `k` is the
/// length and there is none).
proof fn lemma_char_from_at(s: Seq<char>, c: char, i: int, k: int)
    requires
        0 <= i <= k <= s.len(),
        k == s.len() || s[k] == c,
        forall|j: int| i <= j < k ==> #[trigger] s[j] != c,
    ensures
        char_from(s, c, i) == k,
    decreases k - i,
{
    if i < k {
        lemma_char_from_at(s, c, i + 1, k);
    }
}

/// Where the last `/` is, when it is at `k` (or `k` is -1 and there is
/// none).
proof fn lemma_last_slash_is(s: Seq<char>, k: int)
    requires
        -1 <= k < s.len(),
        k >= 0 ==> s[k] == '/',
        forall|j: int| k < j < s.len() ==> #[trigger] s[j] != '/',
    ensures
        last_slash(s) == k,
{
    lemma_last_slash(s);
    let l = last_slash(s);
    if l > k {
        assert(s[l] == '/');
    } else if l < k {
        assert(s[k] == '/');
    }
}

/// Splitting at every `/` is splitting before the last one, then taking
/// the piece after it.
proof fn lemma_split_last(s: Seq<char>)
    ensures
        last_slash(s) < 0 ==> split_on(s, '/') == seq![s],
        last_slash(s) >= 0 ==> split_on(s, '/') == split_on(s.take(last_slash(s)), '/').push(
            s.skip(last_slash(s) + 1),
        ),
    decreases s.len(),
{
    lemma_last_slash(s);
    lemma_char_from(s, '/', 0);
    let e = char_from(s, '/', 0);
    let l = last_slash(s);
    if e >= s.len() {
        if l >= 0 {
            assert(s[l] == '/');
        }
    } else {
        let t = s.skip(e + 1);
        assert(l >= e) by {
            if l < e {
                assert(s[e] == '/');
            }
        }
        lemma_split_last(t);
        lemma_last_slash(t);
        let j = last_slash(t);
        assert(split_on(s, '/') == seq![s.take(e)] + split_on(t, '/'));
        if j < 0 {
            assert forall|k: int| e < k < s.len() implies #[trigger] s[k] != '/' by {
                assert(s[k] == t[k - (e + 1)]);
            }
            lemma_last_slash_is(s, e);
            let p = s.take(e);
            assert forall|k: int| 0 <= k < p.len() implies #[trigger] p[k] != '/' by {
                assert(p[k] == s[k]);
            }
            lemma_char_from_at(p, '/', 0, p.len() as int);
            assert(split_on(p, '/') == seq![p]);
            assert(seq![s.take(e)] + seq![t] =~= seq![p].push(s.skip(e + 1)));
        } else {
            assert(t[j] == '/');
            assert(s[e + 1 + j] == t[j]);
            assert forall|k: int| e + 1 + j < k < s.len() implies #[trigger] s[k] != '/' by {
                assert(s[k] == t[k - (e + 1)]);
            }
            lemma_last_slash_is(s, e + 1 + j);
            let p = s.take(l);
            assert forall|k: int| 0 <= k < e implies #[trigger] p[k] != '/' by {
                assert(p[k] == s[k]);
            }
            assert(p[e] == s[e]);
            lemma_char_from_at(p, '/', 0, e);
            assert(p.take(e) =~= s.take(e));
            assert(p.skip(e + 1) =~= t.take(j));
            assert(split_on(p, '/') == seq![p.take(e)] + split_on(p.skip(e + 1), '/'));
            assert(t.skip(j + 1) =~= s.skip(l + 1));
            assert(seq![s.take(e)] + split_on(t.take(j), '/').push(t.skip(j + 1)) =~= (seq![
                s.take(e),
            ] + split_on(t.take(j), '/')).push(s.skip(l + 1)));
        }
    }
}

/// The tokens of a path that starts with `/` are those of the path before
/// its last `/`, then the piece after it.
proof fn lemma_path_tokens_last(path: Seq<char>)
    requires
        path.len() > 0,
        path[0] == '/',
    ensures
        last_slash(path) >= 0,
        path_tokens(path.take(last_slash(path))) is Some,
        path_tokens(path) == Some(
            path_tokens(path.take(last_slash(path)))->0.push(path.skip(last_slash(path) + 1)),
        ),
{
    lemma_last_slash(path);
    let i = last_slash(path);
    if i < 0 {
        assert(path[0] != '/');
    }
    let u = path.skip(1);
    assert forall|j: int| i - 1 < j < u.len() implies #[trigger] u[j] != '/' by {
        assert(u[j] == path[j + 1]);
    }
    if i == 0 {
        lemma_last_slash_is(u, -1);
        lemma_split_last(u);
        assert(u =~= path.skip(i + 1));
        assert(path.take(0) =~= Seq::<char>::empty());
        assert(seq![u] =~= Seq::<Seq<char>>::empty().push(u));
    } else {
        assert(u[i - 1] == path[i]);
        lemma_last_slash_is(u, i - 1);
        lemma_split_last(u);
        let pp = path.take(i);
        assert(pp[0] == '/');
        assert(u.take(i - 1) =~= pp.skip(1));
        assert(u.skip(i) =~= path.skip(i + 1));
    }
}

/// Following one more token.
#[verifier::spinoff_prover]
proof fn lemma_value_at_push(v: ValueView, ts: Seq<Seq<char>>, t: Seq<char>)
    ensures
        value_at(v, ts.push(t)) == match value_at(v, ts) {
            None => None,
            Some(x) => match child_of(x, t) {
                None => None,
                Some(c) => Some(c.value),
            },
        },
    decreases ts.len(),
{
    if ts.len() == 0 {
        assert(ts.push(t) =~= seq![t]);
        assert(seq![t].drop_first() =~= Seq::<Seq<char>>::empty());
    } else {
        assert(ts.push(t)[0] == ts[0]);
        assert(ts.push(t).drop_first() =~= ts.drop_first().push(t));
        if let Some(c) = child_of(v, ts[0]) {
            lemma_value_at_push(c.value, ts.drop_first(), t);
        }
    }
}

/// Under the token of a key just added, the added value is found.
proof fn lemma_child_of_added(parent: ValueView, token: Seq<char>, val: ValueView)
    requires
        added(parent, decoded(token), val) is Ok,
        decoded(token) != "-"@,
    ensures
        child_of(added(parent, decoded(token), val)->Ok_0, token) matches Some(c) && c.value
            == val,
{
    let key = decoded(token);
    match parent {
        ValueView::Object(ms) => {
            let i = member_index(ms, key);
            lemma_member_index(ms, key);
            if i >= 0 {
                let ms2 = added(parent, key, val)->Ok_0->Object_0;
                assert forall|j: int| 0 <= j < ms.len() implies #[trigger] ms2[j].key
                    == ms[j].key by {}
                lemma_member_index_keys(ms, ms2, key);
            } else {
                let e = EntryView { key, key_trivia: seq![], value: bare_node(val) };
                lemma_member_index_push(ms, e);
            }
        },
        _ => {},
    }
}

/// The value `remove` takes out is the one its path pointed to.
proof fn lemma_removed_is_pointed(v: ValueView, path: Seq<char>)
    requires
        remove_at(v, path) is Ok,
    ensures
        pointed_value(v, path) == Some(remove_at(v, path)->Ok_0.1),
{
    let (pp, key) = parent_and_key(path)->Some_0;
    let i = last_slash(path);
    lemma_last_slash(path);
    lemma_pointed_value(v, pp);
    if i > 0 {
        assert(path.take(i)[0] == path[0]);
    }
    lemma_path_tokens_last(path);
    let ts = path_tokens(pp)->0;
    let token = path.skip(i + 1);
    lemma_pointed_value(v, path);
    lemma_value_at_push(v, ts, token);
    let parent = pointed_value(v, pp)->Some_0;
    if let ValueView::Object(ms) = parent {
        lemma_member_index(ms, key);
    }
}

/// Reading back an `Add`: where it goes through at a path whose last token
/// is not `-` (which appends to an array), the path then points to the
/// added value. An add under a key an object already has replaces that
/// member's value, so this holds there too.
pub proof fn lemma_add_then_read(v: ValueView, path: Seq<char>, val: ValueView)
    requires
        add_at(v, path, val) is Ok,
        parent_and_key(path) matches Some((_, key)) ==> key != "-"@,
    ensures
        pointed_value(add_at(v, path, val)->Ok_0, path) == Some(val),
{
    if path.len() > 0 {
        let (pp, key) = parent_and_key(path)->Some_0;
        let i = last_slash(path);
        lemma_last_slash(path);
        lemma_pointed_value(v, pp);
        if i > 0 {
            assert(path.take(i)[0] == path[0]);
        }
        lemma_path_tokens_last(path);
        let ts = path_tokens(pp)->0;
        let token = path.skip(i + 1);
        let parent = pointed_value(v, pp)->Some_0;
        let p2 = added(parent, key, val)->Ok_0;
        let v2 = value_set_at(v, ts, p2);
        lemma_value_write_read(v, ts, p2);
        lemma_pointed_value(v2, path);
        lemma_value_at_push(v2, ts, token);
        lemma_child_of_added(parent, token, val);
    }
}

/// Reading back a `Move` that went through: its path then points to the
/// value its `from` pointed to (a last token `-` aside, as for `Add`).
pub proof fn lemma_move_then_read(v: ValueView, from: Seq<char>, path: Seq<char>)
    requires
        patch_step(v, PatchOpView::Move { from, path }).1 is Ok,
        parent_and_key(path) matches Some((_, key)) ==> key != "-"@,
    ensures
        pointed_value(patch_step(v, PatchOpView::Move { from, path }).0, path)
            == pointed_value(v, from),
{
    lemma_removed_is_pointed(v, from);
    let (v2, out) = remove_at(v, from)->Ok_0;
    lemma_add_then_read(v2, path, out);
}

/// Reading back a `Copy` that went through: its path then points to the
/// value its `from` points to (a last token `-` aside, as for `Add`).
pub proof fn lemma_copy_then_read(v: ValueView, from: Seq<char>, path: Seq<char>)
    requires
        patch_step(v, PatchOpView::Copy { from, path }).1 is Ok,
        parent_and_key(path) matches Some((_, key)) ==> key != "-"@,
    ensures
        pointed_value(patch_step(v, PatchOpView::Copy { from, path }).0, path)
            == pointed_value(v, from),
{
    let x = pointed_value(v, from)->Some_0;
    lemma_add_then_read(v, path, x);
}

} // verus!
