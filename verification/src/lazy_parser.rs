//! The parser behind [`from_str_lazy`](crate::lazy_val::from_str_lazy): the
//! grammar it accepts, written as spec functions over the input bytes, and
//! the parser that is proved to follow it. Between tokens it skips
//! comments and any character that `char::is_whitespace` accepts (see
//! [`skip_trivia_wide`]), where the owned parser takes JSON whitespace only.

use vstd::prelude::*;
use vstd::string::StringSliceAdditionalSpecFns;
use crate::ast::{Trivia, TriviaView, trivia_view};
use crate::error::Error;
use crate::lazy_val::{
    EntryModel, KeyText, LazyNode, LazyObjectEntry, LazyVal, NodeModel, Unescaped, ValModel,
    contains_backslash, decode_escaped, entries_view, keys_sorted, lemma_array_view,
    lemma_object_view, lemma_sort_sorted, lemma_sort_values_sorted, lemma_unescape_plain,
    lemma_scanned_no_overrun, lemma_sort_multiset, node_sorted, nodes_view, sort_by_key,
    sort_entries, strings_decodable, unescape, val_sorted, values_sorted,
};
use crate::parser_core::{
    FailKind, MAX_DEPTH, ParseFail, ParserCore, fail_at, fail_message, fail_message_text,
    first_control, line_col,
    lemma_scan_string_end, lemma_skip_trivia_wide_mono, number_end, scan_string_end, skip_trivia_wide,
};
use crate::text;

verus! {

// ---------------------------------------------------------------------------
// The grammar
// ---------------------------------------------------------------------------

/// How much deeper arrays and objects may still nest at `depth`.
pub open spec fn depth_room(depth: int) -> int {
    if depth <= MAX_DEPTH {
        MAX_DEPTH + 1 - depth
    } else {
        0
    }
}

/// The bytes of `true`, `false` and `null`.
pub open spec fn kw_true() -> Seq<u8> {
    seq![0x74u8, 0x72u8, 0x75u8, 0x65u8]
}

pub open spec fn kw_false() -> Seq<u8> {
    seq![0x66u8, 0x61u8, 0x6cu8, 0x73u8, 0x65u8]
}

pub open spec fn kw_null() -> Seq<u8> {
    seq![0x6eu8, 0x75u8, 0x6cu8, 0x6cu8]
}

/// Whether the input continues at `p` with the bytes of `kw`.
pub open spec fn has_keyword(b: Seq<u8>, p: int, kw: Seq<u8>) -> bool {
    0 <= p && p + kw.len() <= b.len() && b.subrange(p, p + kw.len()) == kw
}

/// A scalar whose first byte is at `p` (not `[` or `{`), with the comments
/// before it: the node, and where the input continues.
pub open spec fn parse_scalar(b: Seq<u8>, p: int, trivia: Seq<TriviaView>) -> Result<
    (NodeModel, int),
    ParseFail,
> {
    let c = b[p];
    if c == 0x22 {
        match scan_string_end(b, p + 1) {
            Err(f) => Err(f),
            Ok(e) => if first_control(b, p + 1, e) != -1 {
                Err(fail_at(FailKind::ControlChar, first_control(b, p + 1, e)))
            } else {
                Ok((NodeModel { value: ValModel::String(b.subrange(p + 1, e)), trivia }, e + 1))
            },
        }
    } else if c == 0x2d || (0x30 <= c <= 0x39) {
        let q = number_end(b, p + 1);
        Ok((NodeModel { value: ValModel::Number(b.subrange(p, q)), trivia }, q))
    } else if c == 0x74 {
        if has_keyword(b, p, kw_true()) {
            Ok((NodeModel { value: ValModel::Bool(true), trivia }, p + 4))
        } else {
            Err(fail_at(FailKind::ExpectedTrue, p))
        }
    } else if c == 0x66 {
        if has_keyword(b, p, kw_false()) {
            Ok((NodeModel { value: ValModel::Bool(false), trivia }, p + 5))
        } else {
            Err(fail_at(FailKind::ExpectedFalse, p))
        }
    } else if c == 0x6e {
        if has_keyword(b, p, kw_null()) {
            Ok((NodeModel { value: ValModel::Null, trivia }, p + 4))
        } else {
            Err(fail_at(FailKind::ExpectedNull, p))
        }
    } else {
        Err(fail_at(FailKind::UnexpectedToken(c), p))
    }
}

/// A value from `pos` on, at nesting `depth`, with `pending` the comments
/// read before `pos` and not yet attached: the value's node (its trivia are
/// all comments before the value), where the input continues, and the
/// comments read but not attached (left over inside an empty array or
/// object).
pub open spec fn parse_value(b: Seq<u8>, pos: int, pending: Seq<TriviaView>, depth: int) -> Result<
    (NodeModel, int, Seq<TriviaView>),
    ParseFail,
>
    decreases depth_room(depth), 0int, 0int,
{
    match skip_trivia_wide(b, pos, pending) {
        Err(f) => Err(f),
        Ok((p, pend)) => {
            if p < 0 || p >= b.len() {
                Err(fail_at(FailKind::UnexpectedEof, p))
            } else if b[p] == 0x7b || b[p] == 0x5b {
                if depth >= MAX_DEPTH {
                    Err(fail_at(FailKind::DepthExceeded, p))
                } else {
                    let inner = if b[p] == 0x7b {
                        parse_members(b, p + 1, seq![], depth + 1, seq![])
                    } else {
                        parse_items(b, p + 1, seq![], depth + 1, seq![])
                    };
                    match inner {
                        Err(f) => Err(f),
                        Ok((v, q, rest)) => Ok((NodeModel { value: v, trivia: pend }, q, rest)),
                    }
                }
            } else {
                match parse_scalar(b, p, pend) {
                    Err(f) => Err(f),
                    Ok((n, q)) => Ok((n, q, seq![])),
                }
            }
        },
    }
}

/// `n` with `extra` comments after its own.
pub open spec fn with_trailing(n: NodeModel, extra: Seq<TriviaView>) -> NodeModel {
    NodeModel { value: n.value, trivia: n.trivia + extra }
}

/// The rest of an array from `pos` on, after the elements `items`: at `]`,
/// comments read since the last element attach to it (they stay pending in
/// an empty array).
pub open spec fn parse_items(
    b: Seq<u8>,
    pos: int,
    pending: Seq<TriviaView>,
    depth: int,
    items: Seq<NodeModel>,
) -> Result<(ValModel, int, Seq<TriviaView>), ParseFail>
    decreases depth_room(depth), 1int, b.len() - pos,
{
    match skip_trivia_wide(b, pos, pending) {
        Err(f) => Err(f),
        Ok((p, pend)) => {
            if p < 0 || p >= b.len() {
                Err(fail_at(FailKind::EofInArray, p))
            } else if b[p] == 0x5d {
                if pend.len() > 0 && items.len() > 0 {
                    let last = items.len() - 1;
                    Ok(
                        (
                            ValModel::Array(items.update(last, with_trailing(items[last], pend))),
                            p + 1,
                            seq![],
                        ),
                    )
                } else {
                    Ok((ValModel::Array(items), p + 1, pend))
                }
            } else {
                match parse_value(b, p, pend, depth) {
                    Err(f) => Err(f),
                    Ok((n, q, pend2)) => match skip_trivia_wide(b, q, pend2) {
                        Err(f) => Err(f),
                        Ok((r, pend3)) => {
                            if r < 0 || r >= b.len() {
                                Err(fail_at(FailKind::EofInArray, r))
                            } else if b[r] == 0x2c || b[r] == 0x5d {
                                let next = if b[r] == 0x2c {
                                    r + 1
                                } else {
                                    r
                                };
                                if next <= pos || next > b.len() {
                                    Err(fail_at(FailKind::Stalled, r))
                                } else {
                                    parse_items(b, next, pend3, depth, items.push(n))
                                }
                            } else {
                                Err(fail_at(FailKind::ArraySeparator(b[r]), r))
                            }
                        },
                    },
                }
            }
        },
    }
}

/// The key of a member whose opening quote is at `p`: its decoded text and
/// the offset of its closing quote.
pub open spec fn parse_key(b: Seq<u8>, p: int) -> Result<(Seq<char>, int), ParseFail> {
    match scan_string_end(b, p + 1) {
        Err(f) => Err(f),
        Ok(e) => if first_control(b, p + 1, e) != -1 {
            Err(fail_at(FailKind::ControlChar, first_control(b, p + 1, e)))
        } else {
            match unescape(b.subrange(p + 1, e)) {
                Unescaped::Text(k) => Ok((k, e)),
                _ => Err(fail_at(FailKind::BadKeyEscape, p)),
            }
        },
    }
}

/// The members of an object at `}`: comments read since the last member
/// attach to its value, and the members are sorted by key.
pub open spec fn close_members(entries: Seq<EntryModel>, pend: Seq<TriviaView>) -> (
    Seq<EntryModel>,
    Seq<TriviaView>,
) {
    if pend.len() > 0 && entries.len() > 0 {
        let last = entries.len() - 1;
        let e = entries[last];
        (
            sort_by_key(
                entries.update(
                    last,
                    EntryModel {
                        key: e.key,
                        key_trivia: e.key_trivia,
                        value: with_trailing(e.value, pend),
                    },
                ),
            ),
            seq![],
        )
    } else {
        (sort_by_key(entries), pend)
    }
}

/// The members of an object as written, with the comments read after the
/// last member attached to its value: what [`close_members`] sorts.
pub open spec fn attach_trailing(entries: Seq<EntryModel>, pend: Seq<TriviaView>) -> Seq<
    EntryModel,
> {
    if pend.len() > 0 && entries.len() > 0 {
        let last = entries.len() - 1;
        let e = entries[last];
        entries.update(
            last,
            EntryModel { key: e.key, key_trivia: e.key_trivia, value: with_trailing(e.value, pend) },
        )
    } else {
        entries
    }
}

/// Closing an object keeps its members: they come out sorted by key, and
/// each member as written (see [`attach_trailing`]) is among them exactly as
/// often as it was written.
pub proof fn lemma_close_members_permutes(entries: Seq<EntryModel>, pend: Seq<TriviaView>)
    ensures
        close_members(entries, pend).0 == sort_by_key(attach_trailing(entries, pend)),
        keys_sorted(close_members(entries, pend).0),
        close_members(entries, pend).0.to_multiset() == attach_trailing(
            entries,
            pend,
        ).to_multiset(),
        close_members(entries, pend).0.len() == entries.len(),
{
    lemma_sort_sorted(attach_trailing(entries, pend));
    lemma_sort_multiset(attach_trailing(entries, pend));
}

/// The rest of an object from `pos` on, after the members `entries` (in
/// source order): each member's key trivia are the comments before its key,
/// and its value's trivia the comments between the key and the value.
pub open spec fn parse_members(
    b: Seq<u8>,
    pos: int,
    pending: Seq<TriviaView>,
    depth: int,
    entries: Seq<EntryModel>,
) -> Result<(ValModel, int, Seq<TriviaView>), ParseFail>
    decreases depth_room(depth), 1int, b.len() - pos,
{
    match skip_trivia_wide(b, pos, pending) {
        Err(f) => Err(f),
        Ok((p, pend)) => {
            if p < 0 || p >= b.len() {
                Err(fail_at(FailKind::EofInObject, p))
            } else if b[p] == 0x7d {
                let (closed, rest) = close_members(entries, pend);
                Ok((ValModel::Object(closed), p + 1, rest))
            } else if b[p] != 0x22 {
                Err(fail_at(FailKind::ExpectedKey, p))
            } else {
                match parse_member(b, p, pend, depth) {
                    Err(f) => Err(f),
                    Ok((entry, r, pend4)) => {
                        if r < 0 || r >= b.len() {
                            Err(fail_at(FailKind::EofInObject, r))
                        } else if b[r] == 0x2c || b[r] == 0x7d {
                            let next = if b[r] == 0x2c {
                                r + 1
                            } else {
                                r
                            };
                            if next <= pos || next > b.len() {
                                Err(fail_at(FailKind::Stalled, r))
                            } else {
                                parse_members(b, next, pend4, depth, entries.push(entry))
                            }
                        } else {
                            Err(fail_at(FailKind::ObjectSeparator(b[r]), r))
                        }
                    },
                }
            }
        },
    }
}

/// A member whose key's opening quote is at `p`, with `key_trivia` the
/// comments before the key: the member, then, past the comments after its
/// value, where the input continues and the comments read there.
pub open spec fn parse_member(b: Seq<u8>, p: int, key_trivia: Seq<TriviaView>, depth: int) -> Result<
    (EntryModel, int, Seq<TriviaView>),
    ParseFail,
>
    decreases depth_room(depth), 0int, 1int,
{
    match parse_key(b, p) {
        Err(f) => Err(f),
        Ok((key, e)) => match skip_trivia_wide(b, e + 1, seq![]) {
            Err(f) => Err(f),
            Ok((c, pend)) => {
                if c < 0 || c >= b.len() || b[c] != 0x3a {
                    Err(fail_at(FailKind::ExpectedColon, c))
                } else {
                    match parse_value(b, c + 1, pend, depth) {
                        Err(f) => Err(f),
                        Ok((v, q, pend2)) => match skip_trivia_wide(b, q, pend2) {
                            Err(f) => Err(f),
                            Ok((r, pend3)) => Ok(
                                (EntryModel { key, key_trivia, value: v }, r, pend3),
                            ),
                        },
                    }
                }
            },
        },
    }
}

/// A whole document: one value, then only whitespace and comments, which
/// attach to the value after its own.
pub open spec fn parse_document(b: Seq<u8>) -> Result<NodeModel, ParseFail> {
    match parse_value(b, 0, seq![], 0) {
        Err(f) => Err(f),
        Ok((root, q, pend)) => match skip_trivia_wide(b, q, pend) {
            Err(f) => Err(f),
            Ok((r, pend2)) => if r < b.len() {
                Err(fail_at(FailKind::TrailingContent, r))
            } else {
                Ok(with_trailing(root, pend2))
            },
        },
    }
}

} // verus!
verus! {

broadcast use vstd::string::group_string_axioms;

// ---------------------------------------------------------------------------
// Properties of the grammar
// ---------------------------------------------------------------------------

/// Viewing two lists of comments one after the other.
pub proof fn lemma_trivia_view_concat(a: Seq<Trivia>, c: Seq<Trivia>)
    ensures
        trivia_view(a + c) == trivia_view(a) + trivia_view(c),
{
    assert(trivia_view(a + c) =~= trivia_view(a) + trivia_view(c));
}

/// A node with more comments is sorted exactly when the node is.
proof fn lemma_with_trailing_sorted(n: NodeModel, extra: Seq<TriviaView>)
    ensures
        node_sorted(with_trailing(n, extra)) == node_sorted(n),
{
}

proof fn lemma_value_sorted(b: Seq<u8>, pos: int, pending: Seq<TriviaView>, depth: int)
    ensures
        parse_value(b, pos, pending, depth) matches Ok((n, _, _)) ==> node_sorted(n),
    decreases depth_room(depth), 0int, 0int,
{
    if let Ok((p, pend)) = skip_trivia_wide(b, pos, pending) {
        if 0 <= p < b.len() && (b[p] == 0x7b || b[p] == 0x5b) && depth < MAX_DEPTH {
            if b[p] == 0x7b {
                lemma_members_sorted(b, p + 1, seq![], depth + 1, seq![]);
            } else {
                lemma_items_sorted(b, p + 1, seq![], depth + 1, seq![]);
            }
        }
    }
}

proof fn lemma_items_sorted(
    b: Seq<u8>,
    pos: int,
    pending: Seq<TriviaView>,
    depth: int,
    items: Seq<NodeModel>,
)
    requires
        forall|i: int| 0 <= i < items.len() ==> node_sorted(#[trigger] items[i]),
    ensures
        parse_items(b, pos, pending, depth, items) matches Ok((v, _, _)) ==> val_sorted(v),
    decreases depth_room(depth), 1int, b.len() - pos,
{
    if let Ok((p, pend)) = skip_trivia_wide(b, pos, pending) {
        if 0 <= p < b.len() {
            if b[p] == 0x5d {
                if pend.len() > 0 && items.len() > 0 {
                    let last = items.len() - 1;
                    let u = items.update(last, with_trailing(items[last], pend));
                    lemma_with_trailing_sorted(items[last], pend);
                    assert forall|i: int| 0 <= i < u.len() implies node_sorted(#[trigger] u[i]) by {
                        if i != last {
                            assert(u[i] == items[i]);
                        }
                    }
                }
            } else {
                lemma_value_sorted(b, p, pend, depth);
                if let Ok((n, q, pend2)) = parse_value(b, p, pend, depth) {
                    if let Ok((r, pend3)) = skip_trivia_wide(b, q, pend2) {
                        if 0 <= r < b.len() && (b[r] == 0x2c || b[r] == 0x5d) {
                            let next = if b[r] == 0x2c {
                                r + 1
                            } else {
                                r
                            };
                            if pos < next <= b.len() {
                                let more = items.push(n);
                                assert forall|i: int| 0 <= i < more.len() implies node_sorted(
                                    #[trigger] more[i],
                                ) by {
                                    if i < items.len() {
                                        assert(more[i] == items[i]);
                                    }
                                }
                                lemma_items_sorted(b, next, pend3, depth, more);
                            }
                        }
                    }
                }
            }
        }
    }
}

proof fn lemma_member_sorted(b: Seq<u8>, p: int, key_trivia: Seq<TriviaView>, depth: int)
    ensures
        parse_member(b, p, key_trivia, depth) matches Ok((e, _, _)) ==> node_sorted(e.value),
    decreases depth_room(depth), 0int, 1int,
{
    if let Ok((key, e)) = parse_key(b, p) {
        if let Ok((c, pend)) = skip_trivia_wide(b, e + 1, seq![]) {
            if 0 <= c < b.len() && b[c] == 0x3a {
                lemma_value_sorted(b, c + 1, pend, depth);
            }
        }
    }
}

proof fn lemma_members_sorted(
    b: Seq<u8>,
    pos: int,
    pending: Seq<TriviaView>,
    depth: int,
    entries: Seq<EntryModel>,
)
    requires
        values_sorted(entries),
    ensures
        parse_members(b, pos, pending, depth, entries) matches Ok((v, _, _)) ==> val_sorted(v),
    decreases depth_room(depth), 1int, b.len() - pos,
{
    if let Ok((p, pend)) = skip_trivia_wide(b, pos, pending) {
        if 0 <= p < b.len() {
            if b[p] == 0x7d {
                let u = if pend.len() > 0 && entries.len() > 0 {
                    let last = entries.len() - 1;
                    let e = entries[last];
                    let u = entries.update(
                        last,
                        EntryModel {
                            key: e.key,
                            key_trivia: e.key_trivia,
                            value: with_trailing(e.value, pend),
                        },
                    );
                    lemma_with_trailing_sorted(e.value, pend);
                    assert forall|i: int| 0 <= i < u.len() implies node_sorted(
                        #[trigger] u[i].value,
                    ) by {
                        if i != last {
                            assert(u[i] == entries[i]);
                        }
                    }
                    u
                } else {
                    entries
                };
                lemma_sort_sorted(u);
                lemma_sort_values_sorted(u);
            } else if b[p] == 0x22 {
                lemma_member_sorted(b, p, pend, depth);
                if let Ok((entry, r, pend4)) = parse_member(b, p, pend, depth) {
                    if 0 <= r < b.len() && (b[r] == 0x2c || b[r] == 0x7d) {
                        let next = if b[r] == 0x2c {
                            r + 1
                        } else {
                            r
                        };
                        if pos < next <= b.len() {
                            let more = entries.push(entry);
                            assert forall|i: int| 0 <= i < more.len() implies node_sorted(
                                #[trigger] more[i].value,
                            ) by {
                                if i < entries.len() {
                                    assert(more[i] == entries[i]);
                                }
                            }
                            lemma_members_sorted(b, next, pend4, depth, more);
                        }
                    }
                }
            }
        }
    }
}

/// Every object in a parsed document has its members sorted by key, at
/// every depth, so that [`LazyVal::get`] finds the first member with a key.
pub proof fn lemma_document_sorted(b: Seq<u8>)
    ensures
        parse_document(b) matches Ok(n) ==> node_sorted(n),
{
    lemma_value_sorted(b, 0, seq![], 0);
    if let Ok((root, q, pend)) = parse_value(b, 0, seq![], 0) {
        if let Ok((r, pend2)) = skip_trivia_wide(b, q, pend) {
            lemma_with_trailing_sorted(root, pend2);
        }
    }
}

/// Every string of a node decodes without running past its end.
pub open spec fn node_decodable(n: NodeModel) -> bool {
    strings_decodable(n.value)
}

proof fn lemma_scalar_decodable(b: Seq<u8>, p: int, trivia: Seq<TriviaView>)
    requires
        0 <= p < b.len(),
    ensures
        parse_scalar(b, p, trivia) matches Ok((n, _)) ==> node_decodable(n),
{
    if b[p] == 0x22 {
        if let Ok(e) = scan_string_end(b, p + 1) {
            lemma_scan_string_end(b, p + 1);
            lemma_scanned_no_overrun(b, p + 1, p + 1, e);
        }
    }
}

proof fn lemma_value_decodable(b: Seq<u8>, pos: int, pending: Seq<TriviaView>, depth: int)
    ensures
        parse_value(b, pos, pending, depth) matches Ok((n, _, _)) ==> node_decodable(n),
    decreases depth_room(depth), 0int, 0int,
{
    if let Ok((p, pend)) = skip_trivia_wide(b, pos, pending) {
        if 0 <= p < b.len() {
            if (b[p] == 0x7b || b[p] == 0x5b) && depth < MAX_DEPTH {
                if b[p] == 0x7b {
                    lemma_members_decodable(b, p + 1, seq![], depth + 1, seq![]);
                } else {
                    lemma_items_decodable(b, p + 1, seq![], depth + 1, seq![]);
                }
            } else {
                lemma_scalar_decodable(b, p, pend);
            }
        }
    }
}

proof fn lemma_items_decodable(
    b: Seq<u8>,
    pos: int,
    pending: Seq<TriviaView>,
    depth: int,
    items: Seq<NodeModel>,
)
    requires
        forall|i: int| 0 <= i < items.len() ==> node_decodable(#[trigger] items[i]),
    ensures
        parse_items(b, pos, pending, depth, items) matches Ok((v, _, _)) ==> strings_decodable(v),
    decreases depth_room(depth), 1int, b.len() - pos,
{
    if let Ok((p, pend)) = skip_trivia_wide(b, pos, pending) {
        if 0 <= p < b.len() {
            if b[p] == 0x5d {
                if pend.len() > 0 && items.len() > 0 {
                    let last = items.len() - 1;
                    let u = items.update(last, with_trailing(items[last], pend));
                    assert forall|i: int| 0 <= i < u.len() implies strings_decodable(
                        #[trigger] u[i].value,
                    ) by {
                        if i != last {
                            assert(u[i] == items[i]);
                        } else {
                            assert(node_decodable(items[last]));
                        }
                    }
                } else {
                    assert forall|i: int| 0 <= i < items.len() implies strings_decodable(
                        #[trigger] items[i].value,
                    ) by {
                        assert(node_decodable(items[i]));
                    }
                }
            } else {
                lemma_value_decodable(b, p, pend, depth);
                if let Ok((n, q, pend2)) = parse_value(b, p, pend, depth) {
                    if let Ok((r, pend3)) = skip_trivia_wide(b, q, pend2) {
                        if 0 <= r < b.len() && (b[r] == 0x2c || b[r] == 0x5d) {
                            let next = if b[r] == 0x2c {
                                r + 1
                            } else {
                                r
                            };
                            if pos < next <= b.len() {
                                let more = items.push(n);
                                assert forall|i: int| 0 <= i < more.len() implies node_decodable(
                                    #[trigger] more[i],
                                ) by {
                                    if i < items.len() {
                                        assert(more[i] == items[i]);
                                    }
                                }
                                lemma_items_decodable(b, next, pend3, depth, more);
                            }
                        }
                    }
                }
            }
        }
    }
}

proof fn lemma_member_decodable(b: Seq<u8>, p: int, key_trivia: Seq<TriviaView>, depth: int)
    ensures
        parse_member(b, p, key_trivia, depth) matches Ok((e, _, _)) ==> node_decodable(e.value),
    decreases depth_room(depth), 0int, 1int,
{
    if let Ok((key, e)) = parse_key(b, p) {
        if let Ok((c, pend)) = skip_trivia_wide(b, e + 1, seq![]) {
            if 0 <= c < b.len() && b[c] == 0x3a {
                lemma_value_decodable(b, c + 1, pend, depth);
            }
        }
    }
}

/// Sorting keeps every member, so keeps their strings decodable.
proof fn lemma_sorted_decodable(s: Seq<EntryModel>)
    requires
        forall|i: int| 0 <= i < s.len() ==> node_decodable(#[trigger] s[i].value),
    ensures
        forall|i: int|
            0 <= i < sort_by_key(s).len() ==> node_decodable(#[trigger] sort_by_key(s)[i].value),
{
    let t = sort_by_key(s);
    lemma_sort_multiset(s);
    assert forall|i: int| 0 <= i < t.len() implies node_decodable(#[trigger] t[i].value) by {
        assert(t.to_multiset().count(t[i]) > 0) by {
            t.to_multiset_ensures();
            assert(t.contains(t[i]));
        }
        s.to_multiset_ensures();
        assert(s.contains(t[i]));
        let k = choose|k: int| 0 <= k < s.len() && s[k] == t[i];
        assert(node_decodable(s[k].value));
    }
}

proof fn lemma_members_decodable(
    b: Seq<u8>,
    pos: int,
    pending: Seq<TriviaView>,
    depth: int,
    entries: Seq<EntryModel>,
)
    requires
        forall|i: int| 0 <= i < entries.len() ==> node_decodable(#[trigger] entries[i].value),
    ensures
        parse_members(b, pos, pending, depth, entries) matches Ok((v, _, _)) ==> strings_decodable(
            v,
        ),
    decreases depth_room(depth), 1int, b.len() - pos,
{
    if let Ok((p, pend)) = skip_trivia_wide(b, pos, pending) {
        if 0 <= p < b.len() {
            if b[p] == 0x7d {
                let u = if pend.len() > 0 && entries.len() > 0 {
                    let last = entries.len() - 1;
                    let e = entries[last];
                    let u = entries.update(
                        last,
                        EntryModel {
                            key: e.key,
                            key_trivia: e.key_trivia,
                            value: with_trailing(e.value, pend),
                        },
                    );
                    assert forall|i: int| 0 <= i < u.len() implies node_decodable(
                        #[trigger] u[i].value,
                    ) by {
                        if i != last {
                            assert(u[i] == entries[i]);
                        }
                    }
                    u
                } else {
                    entries
                };
                lemma_sorted_decodable(u);
                let t = sort_by_key(u);
                assert forall|i: int| 0 <= i < t.len() implies strings_decodable(
                    #[trigger] t[i].value.value,
                ) by {
                    assert(node_decodable(t[i].value));
                }
            } else if b[p] == 0x22 {
                lemma_member_decodable(b, p, pend, depth);
                if let Ok((entry, r, pend4)) = parse_member(b, p, pend, depth) {
                    if 0 <= r < b.len() && (b[r] == 0x2c || b[r] == 0x7d) {
                        let next = if b[r] == 0x2c {
                            r + 1
                        } else {
                            r
                        };
                        if pos < next <= b.len() {
                            let more = entries.push(entry);
                            assert forall|i: int| 0 <= i < more.len() implies node_decodable(
                                #[trigger] more[i].value,
                            ) by {
                                if i < entries.len() {
                                    assert(more[i] == entries[i]);
                                }
                            }
                            lemma_members_decodable(b, next, pend4, depth, more);
                        }
                    }
                }
            }
        }
    }
}

/// Every string of a parsed document decodes without running past its end,
/// so [`LazyVal::as_str`] and [`LazyVal::to_value`] can be called on all of
/// it.
pub proof fn lemma_document_decodable(b: Seq<u8>)
    ensures
        parse_document(b) matches Ok(n) ==> strings_decodable(n.value),
{
    lemma_value_decodable(b, 0, seq![], 0);
}

// ---------------------------------------------------------------------------
// The parser
// ---------------------------------------------------------------------------

/// Parses the lazy tree with a [`ParserCore`] cursor.
struct LazyParser<'a> {
    core: ParserCore<'a>,
}

impl<'a> LazyParser<'a> {
    /// The cursor is well formed and at a character boundary.
    spec fn ready(&self) -> bool {
        self.core.wf() && self.core.at_boundary()
    }

    fn new(input: &'a str) -> (p: Self)
        requires
            input.spec_bytes().len() <= isize::MAX,
        ensures
            p.ready(),
            p.core.input == input,
            p.core.pos == 0,
            p.core.pending_trivia@.len() == 0,
    {
        LazyParser { core: ParserCore::new(input) }
    }

    /// Reads a string whose opening quote is at the position: its raw text
    /// (between the quotes, escapes undecoded), leaving the position after
    /// the closing quote.
    fn parse_string_slice(&mut self) -> (r: Result<&'a str, ParseFail>)
        requires
            old(self).ready(),
            old(self).core.pos < old(self).core.bytes@.len(),
            old(self).core.bytes@[old(self).core.pos as int] == 0x22,
        ensures
            final(self).core.input == old(self).core.input,
            final(self).core.bytes == old(self).core.bytes,
            final(self).core.pending_trivia == old(self).core.pending_trivia,
            ({
                let b = old(self).core.bytes@;
                let p = old(self).core.pos as int;
                match scan_string_end(b, p + 1) {
                    Err(f) => r == Err::<&'a str, ParseFail>(f),
                    Ok(e) => if first_control(b, p + 1, e) != -1 {
                        r == Err::<&'a str, ParseFail>(
                            fail_at(FailKind::ControlChar, first_control(b, p + 1, e)),
                        )
                    } else {
                        &&& r matches Ok(s) && s.spec_bytes() == b.subrange(p + 1, e)
                        &&& final(self).core.pos == e + 1
                        &&& final(self).ready()
                    },
                }
            }),
    {
        let ghost b = self.core.bytes@;
        let start = self.core.pos + 1;
        proof {
            text::lemma_str_bytes(self.core.input);
            text::lemma_after_ascii(b, start as int);
            lemma_scan_string_end(b, start as int);
        }
        let end = match self.core.scan_string_skip_escapes(start) {
            Ok(e) => e,
            Err(f) => {
                return Err(f);
            },
        };
        match self.core.validate_no_control_chars(start, end) {
            Ok(()) => {},
            Err(f) => {
                return Err(f);
            },
        }
        proof {
            text::lemma_after_ascii(b, end as int + 1);
        }
        let slice = text::substr(self.core.input, start, end);
        self.core.pos = end + 1;
        Ok(slice)
    }

    /// Reads a scalar whose first byte is at the position (see
    /// [`parse_scalar`]); `trivia` are the comments before it.
    fn parse_scalar(&mut self, trivia: Vec<Trivia>) -> (r: Result<LazyNode<'a>, ParseFail>)
        requires
            old(self).ready(),
            old(self).core.pos < old(self).core.bytes@.len(),
        ensures
            final(self).core.input == old(self).core.input,
            final(self).core.bytes == old(self).core.bytes,
            final(self).core.pending_trivia == old(self).core.pending_trivia,
            match parse_scalar(old(self).core.bytes@, old(self).core.pos as int, trivia_view(trivia@)) {
                Ok((n, q)) => r matches Ok(node) && node@ == n && final(self).core.pos == q
                    && final(self).ready() && old(self).core.pos < q,
                Err(f) => r == Err::<LazyNode<'a>, ParseFail>(f),
            },
    {
        let ghost b = self.core.bytes@;
        let p = self.core.pos;
        let c = self.core.bytes[p];
        proof {
            text::lemma_str_bytes(self.core.input);
            lemma_scan_string_end(b, p + 1);
        }
        if c == 0x22 {
            let raw = match self.parse_string_slice() {
                Ok(s) => s,
                Err(f) => {
                    return Err(f);
                },
            };
            Ok(LazyNode { value: LazyVal::String(raw), trivia })
        } else if c == 0x2d || (0x30 <= c && c <= 0x39) {
            let (lex, _) = self.core.scan_number_lexeme();
            proof {
                crate::parser_core::lemma_number_end(b, p + 1);
            }
            Ok(LazyNode { value: LazyVal::Number(lex), trivia })
        } else if c == 0x74 {
            let kw: [u8; 4] = [0x74, 0x72, 0x75, 0x65];
            if self.core.try_keyword(kw.as_slice()) {
                proof {
                    assert(b[p + 3] == b.subrange(p as int, p + 4)[3]);
                    text::lemma_after_ascii(b, p + 4);
                }
                Ok(LazyNode { value: LazyVal::Bool(true), trivia })
            } else {
                Err(ParseFail { kind: FailKind::ExpectedTrue, offset: p })
            }
        } else if c == 0x66 {
            let kw: [u8; 5] = [0x66, 0x61, 0x6c, 0x73, 0x65];
            if self.core.try_keyword(kw.as_slice()) {
                proof {
                    assert(b[p + 4] == b.subrange(p as int, p + 5)[4]);
                    text::lemma_after_ascii(b, p + 5);
                }
                Ok(LazyNode { value: LazyVal::Bool(false), trivia })
            } else {
                Err(ParseFail { kind: FailKind::ExpectedFalse, offset: p })
            }
        } else if c == 0x6e {
            let kw: [u8; 4] = [0x6e, 0x75, 0x6c, 0x6c];
            if self.core.try_keyword(kw.as_slice()) {
                proof {
                    assert(b[p + 3] == b.subrange(p as int, p + 4)[3]);
                    text::lemma_after_ascii(b, p + 4);
                }
                Ok(LazyNode { value: LazyVal::Null, trivia })
            } else {
                Err(ParseFail { kind: FailKind::ExpectedNull, offset: p })
            }
        } else {
            Err(ParseFail { kind: FailKind::UnexpectedToken(c), offset: p })
        }
    }

    /// Reads an object key whose opening quote is at the position (see
    /// [`parse_key`]), leaving the position after its closing quote.
    fn parse_key(&mut self) -> (r: Result<KeyText<'a>, ParseFail>)
        requires
            old(self).ready(),
            old(self).core.pos < old(self).core.bytes@.len(),
            old(self).core.bytes@[old(self).core.pos as int] == 0x22,
        ensures
            final(self).core.input == old(self).core.input,
            final(self).core.bytes == old(self).core.bytes,
            final(self).core.pending_trivia == old(self).core.pending_trivia,
            match parse_key(old(self).core.bytes@, old(self).core.pos as int) {
                Ok((k, e)) => r matches Ok(key) && key@ == k && final(self).core.pos == e + 1
                    && final(self).ready(),
                Err(f) => r == Err::<KeyText<'a>, ParseFail>(f),
            },
            // A key without a backslash borrows its text from the source; one
            // with an escape is decoded into a text of its own.
            r matches Ok(KeyText::Borrowed(s)) ==> s.spec_bytes() == old(self).core.bytes@.subrange(
                old(self).core.pos + 1,
                final(self).core.pos - 1,
            ),
            r matches Ok(key) ==> (key is Borrowed <==> forall|i: int|
                old(self).core.pos < i < final(self).core.pos - 1 ==> #[trigger] old(
                    self,
                ).core.bytes@[i] != 0x5c),
    {
        let p = self.core.pos;
        let raw = match self.parse_string_slice() {
            Ok(s) => s,
            Err(f) => {
                return Err(f);
            },
        };
        proof {
            let bb = self.core.bytes@;
            lemma_scan_string_end(bb, p + 1);
            assert(scan_string_end(bb, p + 1) is Ok);
            let e = scan_string_end(bb, p + 1)->Ok_0;
            assert(raw.spec_bytes() == bb.subrange(p + 1, e) && self.core.pos == e + 1);
        }
        if contains_backslash(raw) {
            proof {
                assert(exists|k: int| 0 <= k < raw.spec_bytes().len() && raw.spec_bytes()[k] == 0x5c);
                let k = choose|k: int| 0 <= k < raw.spec_bytes().len() && raw.spec_bytes()[k] == 0x5c;
                assert(0 <= k < raw.spec_bytes().len() && raw.spec_bytes()[k] == 0x5c);
                let e = self.core.pos - 1;
                assert(raw.spec_bytes() == self.core.bytes@.subrange(p + 1, e));
                assert(raw.spec_bytes()[k] == self.core.bytes@.subrange(p + 1, e)[k]);
                assert(self.core.bytes@[p + 1 + k] == 0x5c);
            }
            match decode_escaped(raw) {
                Some(t) => Ok(KeyText::Owned(t)),
                None => Err(ParseFail { kind: FailKind::BadKeyEscape, offset: p }),
            }
        } else {
            proof {
                text::lemma_str_bytes(raw);
                lemma_unescape_plain(raw.spec_bytes());
                let e = self.core.pos - 1;
                assert(raw.spec_bytes() == self.core.bytes@.subrange(p + 1, e));
                assert forall|i: int| p < i < e implies #[trigger] self.core.bytes@[i] != 0x5c by {
                    assert(raw.spec_bytes()[i - p - 1] == self.core.bytes@.subrange(p + 1, e)[i
                        - p - 1]);
                }
            }
            Ok(KeyText::Borrowed(raw))
        }
    }

    /// Reads a member whose key's opening quote is at the position (see
    /// [`parse_member`]); `key_trivia` are the comments before the key.
    fn parse_member(&mut self, depth: usize, key_trivia: Vec<Trivia>) -> (r: Result<
        LazyObjectEntry<'a>,
        ParseFail,
    >)
        requires
            old(self).ready(),
            old(self).core.pos < old(self).core.bytes@.len(),
            old(self).core.bytes@[old(self).core.pos as int] == 0x22,
            old(self).core.pending_trivia@.len() == 0,
            depth <= MAX_DEPTH,
        ensures
            final(self).core.input == old(self).core.input,
            final(self).core.bytes == old(self).core.bytes,
            match parse_member(
                old(self).core.bytes@,
                old(self).core.pos as int,
                trivia_view(key_trivia@),
                depth as int,
            ) {
                Ok((e, q, pend)) => r matches Ok(entry) && entry@ == e && final(self).core.pos == q
                    && final(self).core.pending() == pend && final(self).ready() && old(
                    self,
                ).core.pos < q,
                Err(f) => r == Err::<LazyObjectEntry<'a>, ParseFail>(f),
            },
        decreases depth_room(depth as int), 0int, 1int,
    {
        let ghost b = self.core.bytes@;
        let p = self.core.pos;
        proof {
            text::lemma_str_bytes(self.core.input);
            lemma_scan_string_end(b, p + 1);
        }
        let key = match self.parse_key() {
            Ok(k) => k,
            Err(f) => {
                return Err(f);
            },
        };
        proof {
            assert(self.core.pending() =~= seq![]);
            lemma_skip_trivia_wide_mono(b, self.core.pos as int, self.core.pending());
        }
        match self.core.consume_trivia_wide() {
            Ok(()) => {},
            Err(f) => {
                return Err(f);
            },
        }
        let c = self.core.pos;
        if c >= self.core.bytes.len() || self.core.bytes[c] != 0x3a {
            return Err(ParseFail { kind: FailKind::ExpectedColon, offset: c });
        }
        self.core.pos = c + 1;
        proof {
            text::lemma_after_ascii(b, c + 1);
        }
        let value = match self.parse_value(depth) {
            Ok(n) => n,
            Err(f) => {
                return Err(f);
            },
        };
        proof {
            lemma_skip_trivia_wide_mono(b, self.core.pos as int, self.core.pending());
        }
        match self.core.consume_trivia_wide() {
            Ok(()) => {},
            Err(f) => {
                return Err(f);
            },
        }
        Ok(LazyObjectEntry { key, key_trivia, value })
    }

    /// Reads a value at nesting `depth` (see [`parse_value`]).
    fn parse_value(&mut self, depth: usize) -> (r: Result<LazyNode<'a>, ParseFail>)
        requires
            old(self).ready(),
            depth <= MAX_DEPTH,
        ensures
            final(self).core.input == old(self).core.input,
            final(self).core.bytes == old(self).core.bytes,
            match parse_value(
                old(self).core.bytes@,
                old(self).core.pos as int,
                old(self).core.pending(),
                depth as int,
            ) {
                Ok((n, q, pend)) => r matches Ok(node) && node@ == n && final(self).core.pos == q
                    && final(self).core.pending() == pend && final(self).ready() && old(
                    self,
                ).core.pos < q,
                Err(f) => r == Err::<LazyNode<'a>, ParseFail>(f),
            },
        decreases depth_room(depth as int), 0int, 0int,
    {
        let ghost b = self.core.bytes@;
        proof {
            lemma_skip_trivia_wide_mono(b, self.core.pos as int, self.core.pending());
        }
        match self.core.consume_trivia_wide() {
            Ok(()) => {},
            Err(f) => {
                return Err(f);
            },
        }
        let p = self.core.pos;
        if p >= self.core.bytes.len() {
            return Err(ParseFail { kind: FailKind::UnexpectedEof, offset: p });
        }
        let trivia = self.core.take_pending_trivia();
        proof {
            assert(self.core.pending() =~= seq![]);
        }
        let c = self.core.bytes[p];
        if c == 0x7b || c == 0x5b {
            if depth >= MAX_DEPTH {
                return Err(ParseFail { kind: FailKind::DepthExceeded, offset: p });
            }
            self.core.pos = p + 1;
            proof {
                text::lemma_str_bytes(self.core.input);
                text::lemma_after_ascii(b, p + 1);
            }
            let inner = if c == 0x7b {
                self.parse_object(depth + 1)
            } else {
                self.parse_array(depth + 1)
            };
            match inner {
                Ok(value) => Ok(LazyNode { value, trivia }),
                Err(f) => Err(f),
            }
        } else {
            self.parse_scalar(trivia)
        }
    }

    /// Reads the rest of an array whose `[` is just before the position (see
    /// [`parse_items`]).
    fn parse_array(&mut self, depth: usize) -> (r: Result<LazyVal<'a>, ParseFail>)
        requires
            old(self).ready(),
            depth <= MAX_DEPTH,
        ensures
            final(self).core.input == old(self).core.input,
            final(self).core.bytes == old(self).core.bytes,
            match parse_items(
                old(self).core.bytes@,
                old(self).core.pos as int,
                old(self).core.pending(),
                depth as int,
                seq![],
            ) {
                Ok((v, q, pend)) => r matches Ok(val) && val@ == v && final(self).core.pos == q
                    && final(self).core.pending() == pend && final(self).ready() && old(
                    self,
                ).core.pos < q,
                Err(f) => r == Err::<LazyVal<'a>, ParseFail>(f),
            },
        decreases depth_room(depth as int), 1int, 0int,
    {
        let ghost b = self.core.bytes@;
        let ghost input = self.core.input;
        let ghost start = self.core.pos as int;
        let ghost goal = parse_items(b, start, self.core.pending(), depth as int, seq![]);
        let mut items: Vec<LazyNode<'a>> = Vec::new();
        proof {
            assert(nodes_view(items@) =~= seq![]);
            text::lemma_str_bytes(input);
        }
        loop
            invariant
                self.ready(),
                self.core.input == input,
                self.core.bytes@ == b,
                b == input.spec_bytes(),
                vstd::utf8::valid_utf8(b),
                depth <= MAX_DEPTH,
                input == old(self).core.input,
                self.core.bytes == old(self).core.bytes,
                b == old(self).core.bytes@,
                start == old(self).core.pos,
                goal == parse_items(b, start, old(self).core.pending(), depth as int, seq![]),
                start <= self.core.pos,
                goal == parse_items(
                    b,
                    self.core.pos as int,
                    self.core.pending(),
                    depth as int,
                    nodes_view(items@),
                ),
            decreases b.len() - self.core.pos,
        {
            let ghost pos1 = self.core.pos as int;
            let ghost iv = nodes_view(items@);
            proof {
                lemma_skip_trivia_wide_mono(b, pos1, self.core.pending());
            }
            match self.core.consume_trivia_wide() {
                Ok(()) => {},
                Err(f) => {
                    return Err(f);
                },
            }
            let p = self.core.pos;
            if p >= self.core.bytes.len() {
                return Err(ParseFail { kind: FailKind::EofInArray, offset: p });
            }
            if self.core.bytes[p] == 0x5d {
                self.core.pos = p + 1;
                proof {
                    text::lemma_after_ascii(b, p + 1);
                }
                if self.core.pending_trivia.len() > 0 && items.len() > 0 {
                    let mut pending = self.core.take_pending_trivia();
                    let ghost pend_tr = pending@;
                    let mut last = items.pop().unwrap();
                    let ghost last_tr = last.trivia@;
                    last.trivia.append(&mut pending);
                    items.push(last);
                    proof {
                        lemma_trivia_view_concat(last_tr, pend_tr);
                        assert(nodes_view(items@) =~= iv.update(
                            iv.len() - 1,
                            with_trailing(iv[iv.len() - 1], trivia_view(pend_tr)),
                        ));
                        assert(self.core.pending() =~= seq![]);
                    }
                }
                proof {
                    lemma_array_view(items);
                }
                return Ok(LazyVal::Array(items));
            }
            let node = match self.parse_value(depth) {
                Ok(n) => n,
                Err(f) => {
                    return Err(f);
                },
            };
            items.push(node);
            proof {
                assert(nodes_view(items@) =~= iv.push(node@));
                lemma_skip_trivia_wide_mono(b, self.core.pos as int, self.core.pending());
            }
            match self.core.consume_trivia_wide() {
                Ok(()) => {},
                Err(f) => {
                    return Err(f);
                },
            }
            let q = self.core.pos;
            if q >= self.core.bytes.len() {
                return Err(ParseFail { kind: FailKind::EofInArray, offset: q });
            }
            let c = self.core.bytes[q];
            if c == 0x2c {
                self.core.pos = q + 1;
                proof {
                    text::lemma_after_ascii(b, q + 1);
                }
            } else if c != 0x5d {
                return Err(ParseFail { kind: FailKind::ArraySeparator(c), offset: q });
            }
        }
    }

    /// Reads the rest of an object whose `{` is just before the position (see
    /// [`parse_members`]).
    fn parse_object(&mut self, depth: usize) -> (r: Result<LazyVal<'a>, ParseFail>)
        requires
            old(self).ready(),
            depth <= MAX_DEPTH,
        ensures
            final(self).core.input == old(self).core.input,
            final(self).core.bytes == old(self).core.bytes,
            match parse_members(
                old(self).core.bytes@,
                old(self).core.pos as int,
                old(self).core.pending(),
                depth as int,
                seq![],
            ) {
                Ok((v, q, pend)) => r matches Ok(val) && val@ == v && final(self).core.pos == q
                    && final(self).core.pending() == pend && final(self).ready() && old(
                    self,
                ).core.pos < q,
                Err(f) => r == Err::<LazyVal<'a>, ParseFail>(f),
            },
        decreases depth_room(depth as int), 1int, 0int,
    {
        let ghost b = self.core.bytes@;
        let ghost input = self.core.input;
        let ghost start = self.core.pos as int;
        let ghost goal = parse_members(b, start, self.core.pending(), depth as int, seq![]);
        let mut entries: Vec<LazyObjectEntry<'a>> = Vec::new();
        proof {
            assert(entries_view(entries@) =~= seq![]);
            text::lemma_str_bytes(input);
        }
        loop
            invariant
                self.ready(),
                self.core.input == input,
                self.core.bytes@ == b,
                b == input.spec_bytes(),
                vstd::utf8::valid_utf8(b),
                depth <= MAX_DEPTH,
                input == old(self).core.input,
                self.core.bytes == old(self).core.bytes,
                b == old(self).core.bytes@,
                start == old(self).core.pos,
                goal == parse_members(b, start, old(self).core.pending(), depth as int, seq![]),
                start <= self.core.pos,
                goal == parse_members(
                    b,
                    self.core.pos as int,
                    self.core.pending(),
                    depth as int,
                    entries_view(entries@),
                ),
            decreases b.len() - self.core.pos,
        {
            let ghost pos1 = self.core.pos as int;
            let ghost ev = entries_view(entries@);
            proof {
                lemma_skip_trivia_wide_mono(b, pos1, self.core.pending());
            }
            match self.core.consume_trivia_wide() {
                Ok(()) => {},
                Err(f) => {
                    return Err(f);
                },
            }
            let p = self.core.pos;
            if p >= self.core.bytes.len() {
                return Err(ParseFail { kind: FailKind::EofInObject, offset: p });
            }
            if self.core.bytes[p] == 0x7d {
                self.core.pos = p + 1;
                proof {
                    text::lemma_after_ascii(b, p + 1);
                }
                if self.core.pending_trivia.len() > 0 && entries.len() > 0 {
                    let mut pending = self.core.take_pending_trivia();
                    let ghost pend_tr = pending@;
                    let mut last = entries.pop().unwrap();
                    let ghost last_tr = last.value.trivia@;
                    last.value.trivia.append(&mut pending);
                    entries.push(last);
                    proof {
                        lemma_trivia_view_concat(last_tr, pend_tr);
                        let e = ev[ev.len() - 1];
                        assert(entries_view(entries@) =~= ev.update(
                            ev.len() - 1,
                            EntryModel {
                                key: e.key,
                                key_trivia: e.key_trivia,
                                value: with_trailing(e.value, trivia_view(pend_tr)),
                            },
                        ));
                        assert(self.core.pending() =~= seq![]);
                    }
                }
                let sorted = sort_entries(entries);
                proof {
                    lemma_object_view(sorted);
                }
                return Ok(LazyVal::Object(sorted));
            }
            let key_trivia = self.core.take_pending_trivia();
            proof {
                assert(self.core.pending() =~= seq![]);
            }
            if self.core.bytes[p] != 0x22 {
                return Err(ParseFail { kind: FailKind::ExpectedKey, offset: p });
            }
            let entry = match self.parse_member(depth, key_trivia) {
                Ok(e) => e,
                Err(f) => {
                    return Err(f);
                },
            };
            let ghost em = entry@;
            entries.push(entry);
            proof {
                assert(entries_view(entries@) =~= ev.push(em));
            }
            let q = self.core.pos;
            if q >= self.core.bytes.len() {
                return Err(ParseFail { kind: FailKind::EofInObject, offset: q });
            }
            let d = self.core.bytes[q];
            if d == 0x2c {
                self.core.pos = q + 1;
                proof {
                    text::lemma_after_ascii(b, q + 1);
                }
            } else if d != 0x7d {
                return Err(ParseFail { kind: FailKind::ObjectSeparator(d), offset: q });
            }
        }
    }

    /// The error a failure is reported as: its message, at the line and
    /// column of its offset.
    fn err(&self, f: ParseFail) -> (e: Error)
        requires
            self.core.wf(),
        ensures
            reports(self.core.bytes@, f, e),
    {
        let (line, col) = self.core.position_from_offset(f.offset);
        Error::Parse { line, col, msg: fail_message_text(f.kind) }
    }

    /// Reads a whole document (see [`parse_document`]).
    fn parse_root(&mut self) -> (r: crate::error::Result<LazyNode<'a>>)
        requires
            old(self).ready(),
            old(self).core.pos == 0,
            old(self).core.pending_trivia@.len() == 0,
        ensures
            match parse_document(old(self).core.bytes@) {
                Ok(n) => r matches Ok(node) && node@ == n,
                Err(f) => r matches Err(e) && reports(old(self).core.bytes@, f, e),
            },
    {
        let ghost b = self.core.bytes@;
        proof {
            assert(self.core.pending() =~= seq![]);
        }
        let mut root = match self.parse_value(0) {
            Ok(n) => n,
            Err(f) => {
                return Err(self.err(f));
            },
        };
        match self.core.consume_trivia_wide() {
            Ok(()) => {},
            Err(f) => {
                return Err(self.err(f));
            },
        }
        let ghost root_tr = root.trivia@;
        if self.core.pending_trivia.len() > 0 {
            let mut pending = self.core.take_pending_trivia();
            let ghost pend_tr = pending@;
            root.trivia.append(&mut pending);
            proof {
                lemma_trivia_view_concat(root_tr, pend_tr);
            }
        } else {
            proof {
                assert(trivia_view(root_tr) + self.core.pending() =~= trivia_view(root_tr));
            }
        }
        if self.core.pos < self.core.bytes.len() {
            return Err(self.err(ParseFail { kind: FailKind::TrailingContent, offset: self.core.pos }));
        }
        Ok(root)
    }
}

/// `e` reports the failure `f` of a parse of `b`: a parse error with the
/// failure's message at the line and column of its offset.
pub open spec fn reports(b: Seq<u8>, f: ParseFail, e: Error) -> bool {
    e matches Error::Parse { line, col, msg } && line == line_col(b, f.offset as int).0 && col
        == line_col(b, f.offset as int).1 && msg@ == fail_message(f.kind)
}

/// Parses JSON with comments into a [`LazyNode`] that borrows strings and
/// numbers from `src` (see [`parse_document`]); the members of every object
/// come sorted by key.
pub fn from_str_lazy(src: &str) -> (r: crate::error::Result<LazyNode<'_>>)
    requires
        src.spec_bytes().len() <= isize::MAX,
    ensures
        match parse_document(src.spec_bytes()) {
            Ok(n) => r matches Ok(node) && node@ == n,
            Err(f) => r matches Err(e) && reports(src.spec_bytes(), f, e),
        },
        r matches Ok(node) ==> node_sorted(node@) && strings_decodable(node@.value),
{
    proof {
        lemma_document_sorted(src.spec_bytes());
        lemma_document_decodable(src.spec_bytes());
    }
    let mut p = LazyParser::new(src);
    p.parse_root()
}

} // verus!
