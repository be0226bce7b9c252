//! Values that keep strings and numbers as slices of the source text and
//! decode them on demand, while arrays and objects are built at parse time.
//! The members of every object are sorted by key when it is parsed, so
//! [`LazyVal::get`] is a binary search.

use vstd::prelude::*;
use vstd::string::StringSliceAdditionalSpecFns;
use vstd::utf8::*;
use vstd::std_specs::iter::IteratorSpec;
use crate::ast::{
    EntryView, Node, NodeView, Number, NumberView, ObjectEntry, Trivia, TriviaView, Value,
    ValueView, trivia_view,
};
use crate::keys::{key_le, lemma_key_le_antisym, lemma_key_le_refl, lemma_key_le_total,
    lemma_key_le_trans, str_eq, str_le};
use crate::text::{self, is_scalar_value};
use crate::parser_core::{
    ParseFail, fast_parse_int, integer_lexeme_i64, lemma_scan_string_end, scan_string_end, text_of,
};

verus! {

broadcast use {vstd::string::group_string_axioms, vstd::std_specs::vec::axiom_spec_into_iter};

/// An object key: the source text itself when it has no escapes, the decoded
/// text otherwise.
#[derive(Debug, Clone)]
pub enum KeyText<'a> {
    Borrowed(&'a str),
    Owned(String),
}

impl<'a> View for KeyText<'a> {
    type V = Seq<char>;

    open spec fn view(&self) -> Seq<char> {
        match self {
            KeyText::Borrowed(s) => s@,
            KeyText::Owned(s) => s@,
        }
    }
}

impl<'a> KeyText<'a> {
    /// The key's text.
    pub fn as_ref(&self) -> (r: &str)
        ensures
            r@ == self@,
    {
        match self {
            KeyText::Borrowed(s) => *s,
            KeyText::Owned(s) => s.as_str(),
        }
    }
}

/// A parsed value with the comments that came before it.
#[derive(Debug)]
pub struct LazyNode<'a> {
    pub value: LazyVal<'a>,
    pub trivia: Vec<Trivia>,
}

/// An object member: `key_trivia` holds the comments before the key;
/// `value.trivia` those between the key and the value.
#[derive(Debug)]
pub struct LazyObjectEntry<'a> {
    pub key: KeyText<'a>,
    pub key_trivia: Vec<Trivia>,
    pub value: LazyNode<'a>,
}

/// A JSON value. Numbers and strings are the raw source text (a string
/// without its quotes, escapes undecoded); arrays hold their elements in
/// source order, objects their members sorted by key.
#[derive(Debug)]
pub enum LazyVal<'a> {
    Null,
    Bool(bool),
    Number(&'a str),
    String(&'a str),
    Array(Vec<LazyNode<'a>>),
    Object(Vec<LazyObjectEntry<'a>>),
}

// ---------------------------------------------------------------------------
// The values as the proofs see them
// ---------------------------------------------------------------------------

/// A value: numbers and strings as the bytes of their source text.
#[verifier::ext_equal]
pub enum ValModel {
    Null,
    Bool(bool),
    Number(Seq<u8>),
    String(Seq<u8>),
    Array(Seq<NodeModel>),
    Object(Seq<EntryModel>),
}

#[verifier::ext_equal]
pub struct NodeModel {
    pub value: ValModel,
    pub trivia: Seq<TriviaView>,
}

#[verifier::ext_equal]
pub struct EntryModel {
    pub key: Seq<char>,
    pub key_trivia: Seq<TriviaView>,
    pub value: NodeModel,
}

/// The model of a value.
pub open spec fn val_model<'a>(v: LazyVal<'a>) -> ValModel
    decreases v,
{
    match v {
        LazyVal::Null => ValModel::Null,
        LazyVal::Bool(b) => ValModel::Bool(b),
        LazyVal::Number(s) => ValModel::Number(s.spec_bytes()),
        LazyVal::String(s) => ValModel::String(s.spec_bytes()),
        LazyVal::Array(items) => ValModel::Array(
            Seq::new(
                items@.len(),
                |i: int| if 0 <= i < items@.len() { node_model(items@[i]) } else { arbitrary() },
            ),
        ),
        LazyVal::Object(members) => ValModel::Object(
            Seq::new(
                members@.len(),
                |i: int| if 0 <= i < members@.len() { entry_model(members@[i]) } else { arbitrary() },
            ),
        ),
    }
}

/// The model of a node.
pub open spec fn node_model<'a>(n: LazyNode<'a>) -> NodeModel
    decreases n,
{
    NodeModel { value: val_model(n.value), trivia: trivia_view(n.trivia@) }
}

/// The model of an object member.
pub open spec fn entry_model<'a>(e: LazyObjectEntry<'a>) -> EntryModel
    decreases e,
{
    EntryModel { key: e.key@, key_trivia: trivia_view(e.key_trivia@), value: node_model(e.value) }
}

impl<'a> View for LazyVal<'a> {
    type V = ValModel;

    open spec fn view(&self) -> ValModel {
        val_model(*self)
    }
}

impl<'a> View for LazyNode<'a> {
    type V = NodeModel;

    open spec fn view(&self) -> NodeModel {
        node_model(*self)
    }
}

impl<'a> View for LazyObjectEntry<'a> {
    type V = EntryModel;

    open spec fn view(&self) -> EntryModel {
        entry_model(*self)
    }
}

pub open spec fn nodes_view<'a>(s: Seq<LazyNode<'a>>) -> Seq<NodeModel> {
    s.map_values(|n: LazyNode<'a>| n@)
}

pub open spec fn entries_view<'a>(s: Seq<LazyObjectEntry<'a>>) -> Seq<EntryModel> {
    s.map_values(|e: LazyObjectEntry<'a>| e@)
}

pub proof fn lemma_array_view<'a>(items: Vec<LazyNode<'a>>)
    ensures
        LazyVal::Array(items)@ == ValModel::Array(nodes_view(items@)),
{
    let m = val_model(LazyVal::Array(items));
    assert(m->Array_0 =~= nodes_view(items@));
}

pub proof fn lemma_object_view<'a>(members: Vec<LazyObjectEntry<'a>>)
    ensures
        LazyVal::Object(members)@ == ValModel::Object(entries_view(members@)),
{
    let m = val_model(LazyVal::Object(members));
    assert(m->Object_0 =~= entries_view(members@));
}

// ---------------------------------------------------------------------------
// Accessors
// ---------------------------------------------------------------------------

impl<'a> LazyVal<'a> {
    pub fn is_null(&self) -> (r: bool)
        ensures
            r == (self is Null),
    {
        matches!(self, LazyVal::Null)
    }

    pub fn is_bool(&self) -> (r: bool)
        ensures
            r == (self is Bool),
    {
        matches!(self, LazyVal::Bool(_))
    }

    pub fn is_number(&self) -> (r: bool)
        ensures
            r == (self is Number),
    {
        matches!(self, LazyVal::Number(_))
    }

    pub fn is_string(&self) -> (r: bool)
        ensures
            r == (self is String),
    {
        matches!(self, LazyVal::String(_))
    }

    pub fn is_array(&self) -> (r: bool)
        ensures
            r == (self is Array),
    {
        matches!(self, LazyVal::Array(_))
    }

    pub fn is_object(&self) -> (r: bool)
        ensures
            r == (self is Object),
    {
        matches!(self, LazyVal::Object(_))
    }

    pub fn as_bool(&self) -> (r: Option<bool>)
        ensures
            match self {
                LazyVal::Bool(b) => r == Some(*b),
                _ => r is None,
            },
    {
        match self {
            LazyVal::Bool(b) => Some(*b),
            _ => None,
        }
    }

    /// The raw number lexeme, if this is a number.
    pub fn as_number_lex(&self) -> (r: Option<&'a str>)
        ensures
            match self {
                LazyVal::Number(lex) => r == Some(*lex),
                _ => r is None,
            },
    {
        match self {
            LazyVal::Number(lex) => Some(*lex),
            _ => None,
        }
    }

    /// Array elements in source order; `None` if this is not an array.
    pub fn as_array(&self) -> (r: Option<&[LazyNode<'a>]>)
        ensures
            match self {
                LazyVal::Array(items) => r matches Some(s) && s@ == items@,
                _ => r is None,
            },
    {
        match self {
            LazyVal::Array(items) => Some(items.as_slice()),
            _ => None,
        }
    }

    /// Object members in key order; `None` if this is not an object.
    pub fn as_object(&self) -> (r: Option<&[LazyObjectEntry<'a>]>)
        ensures
            match self {
                LazyVal::Object(members) => r matches Some(s) && s@ == members@,
                _ => r is None,
            },
    {
        match self {
            LazyVal::Object(members) => Some(members.as_slice()),
            _ => None,
        }
    }

    /// The array element at `idx`; `None` past the end or if this is not an
    /// array.
    pub fn at(&self, idx: usize) -> (r: Option<&LazyNode<'a>>)
        ensures
            match self {
                LazyVal::Array(items) => if idx < items@.len() {
                    r == Some(&items@[idx as int])
                } else {
                    r is None
                },
                _ => r is None,
            },
    {
        match self {
            LazyVal::Array(items) => if idx < items.len() {
                Some(&items[idx])
            } else {
                None
            },
            _ => None,
        }
    }

    /// Number of elements, members, or (for a string) bytes of the raw text;
    /// `None` for the other scalars.
    pub fn len(&self) -> (r: Option<usize>)
        ensures
            match self {
                LazyVal::Array(items) => r == Some(items@.len() as usize),
                LazyVal::Object(members) => r == Some(members@.len() as usize),
                LazyVal::String(s) => r == Some(s.spec_bytes().len() as usize),
                _ => r is None,
            },
    {
        match self {
            LazyVal::Array(items) => Some(items.len()),
            LazyVal::Object(members) => Some(members.len()),
            LazyVal::String(s) => Some(s.as_bytes().len()),
            _ => None,
        }
    }

    /// Whether `len` is `Some(0)`.
    pub fn is_empty(&self) -> (r: bool)
        ensures
            r == match self {
                LazyVal::Array(items) => items@.len() == 0,
                LazyVal::Object(members) => members@.len() == 0,
                LazyVal::String(s) => s.spec_bytes().len() == 0,
                _ => false,
            },
    {
        match self {
            LazyVal::Array(items) => items.len() == 0,
            LazyVal::Object(members) => members.len() == 0,
            LazyVal::String(s) => s.as_bytes().len() == 0,
            _ => false,
        }
    }
}

impl<'a> std::ops::Deref for LazyNode<'a> {
    type Target = LazyVal<'a>;

    fn deref(&self) -> (r: &LazyVal<'a>)
        ensures
            *r == self.value,
    {
        &self.value
    }
}

// ---------------------------------------------------------------------------
// Escapes
// ---------------------------------------------------------------------------

/// What decoding the escapes of a raw string gives: the text, or that it is
/// not a valid escaped string, or that a surrogate pair is cut off by the end
/// of the text (`\uD8xx\u` followed by fewer than four bytes).
pub enum Unescaped {
    Text(Seq<char>),
    Invalid,
    Overrun,
}

/// `piece` followed by what `rest` decodes to.
pub open spec fn prepend(piece: Seq<char>, rest: Unescaped) -> Unescaped {
    match rest {
        Unescaped::Text(t) => Unescaped::Text(piece + t),
        other => other,
    }
}

/// Offset of the first backslash at or after `i`, or the length.
pub open spec fn backslash_from(b: Seq<u8>, i: int) -> int
    decreases b.len() - i,
{
    if i < 0 || i >= b.len() {
        b.len() as int
    } else if b[i] == 0x5c {
        i
    } else {
        backslash_from(b, i + 1)
    }
}

pub proof fn lemma_backslash_from(b: Seq<u8>, i: int)
    requires
        0 <= i <= b.len(),
    ensures
        i <= backslash_from(b, i) <= b.len(),
        backslash_from(b, i) < b.len() ==> b[backslash_from(b, i)] == 0x5c,
        forall|k: int| i <= k < backslash_from(b, i) ==> #[trigger] b[k] != 0x5c,
    decreases b.len() - i,
{
    if i < b.len() && b[i] != 0x5c {
        lemma_backslash_from(b, i + 1);
    }
}

/// The value of a hexadecimal digit.
pub open spec fn hex_digit(c: u8) -> Option<int> {
    if 0x30 <= c <= 0x39 {
        Some(c - 0x30)
    } else if 0x61 <= c <= 0x66 {
        Some(c - 0x61 + 10)
    } else if 0x41 <= c <= 0x46 {
        Some(c - 0x41 + 10)
    } else {
        None
    }
}

/// The value of four hexadecimal digits.
pub open spec fn hex4_value(d: Seq<u8>) -> Option<int> {
    match (hex_digit(d[0]), hex_digit(d[1]), hex_digit(d[2]), hex_digit(d[3])) {
        (Some(a), Some(b), Some(c), Some(e)) => Some(((a * 16 + b) * 16 + c) * 16 + e),
        _ => None,
    }
}

/// The character a UTF-16 surrogate pair stands for.
pub open spec fn pair_value(high: int, low: int) -> int {
    0x10000 + (high - 0xD800) * 1024 + (low - 0xDC00)
}

/// The character of a single escape letter (`\"`, `\\`, `\/`, `\b`,
/// `\f`, `\n`, `\r`, `\t`).
pub open spec fn simple_escape(c: u8) -> Option<char> {
    if c == 0x22 {
        Some('"')
    } else if c == 0x5c {
        Some('\\')
    } else if c == 0x2f {
        Some('/')
    } else if c == 0x62 {
        Some('\x08')
    } else if c == 0x66 {
        Some('\x0c')
    } else if c == 0x6e {
        Some('\n')
    } else if c == 0x72 {
        Some('\r')
    } else if c == 0x74 {
        Some('\t')
    } else {
        None
    }
}

/// What the escape starting with the backslash at `i` stands for: its
/// character and the offset after it, or that it is invalid, or that it is a
/// high surrogate followed by `\u` and fewer than four more bytes.
pub enum EscapeStep {
    Char(char, int),
    Invalid,
    Overrun,
}

pub open spec fn escape_step(b: Seq<u8>, i: int) -> EscapeStep {
    if i + 1 >= b.len() {
        EscapeStep::Invalid
    } else if simple_escape(b[i + 1]) is Some {
        EscapeStep::Char(simple_escape(b[i + 1])->0, i + 2)
    } else if b[i + 1] != 0x75 || i + 6 > b.len() {
        EscapeStep::Invalid
    } else {
        match hex4_value(b.subrange(i + 2, i + 6)) {
            None => EscapeStep::Invalid,
            Some(cp) => if 0xD800 <= cp <= 0xDBFF && i + 8 <= b.len() && b[i + 6] == 0x5c && b[i
                + 7] == 0x75 {
                if i + 12 > b.len() {
                    EscapeStep::Overrun
                } else {
                    match hex4_value(b.subrange(i + 8, i + 12)) {
                        None => EscapeStep::Invalid,
                        Some(low) => if 0xDC00 <= low <= 0xDFFF {
                            EscapeStep::Char(pair_value(cp, low) as char, i + 12)
                        } else {
                            EscapeStep::Invalid
                        },
                    }
                }
            } else if is_scalar_value(cp) {
                EscapeStep::Char(cp as char, i + 6)
            } else {
                EscapeStep::Invalid
            },
        }
    }
}

pub proof fn lemma_escape_step(b: Seq<u8>, i: int)
    requires
        0 <= i,
    ensures
        escape_step(b, i) matches EscapeStep::Char(_, next) ==> i + 2 <= next <= b.len() && b[next
            - 1] < 0x80,
{
    if let EscapeStep::Char(_, next) = escape_step(b, i) {
        if next == i + 6 {
            assert(b.subrange(i + 2, i + 6)[3] == b[i + 5]);
        } else if next == i + 12 {
            assert(b.subrange(i + 8, i + 12)[3] == b[i + 11]);
        }
    }
}

/// A `\u` escape of a low surrogate (`\uDC00` to `\uDFFF`) starts at `j`.
pub open spec fn low_surrogate_at(b: Seq<u8>, j: int) -> bool {
    &&& 0 <= j
    &&& j + 6 <= b.len()
    &&& b[j] == 0x5c
    &&& b[j + 1] == 0x75
    &&& hex4_value(b.subrange(j + 2, j + 6)) matches Some(w)
    &&& 0xDC00 <= w <= 0xDFFF
}

/// The escape that starts with the backslash at `i` is malformed: a lone
/// backslash at the end; a backslash before a byte other than `"`, `\`,
/// `/`, `b`, `f`, `n`, `r`, `t` and `u`; a `\u` without four hexadecimal
/// digits; a low surrogate `\uDC00`..`\uDFFF` that no high half comes
/// before; or a high surrogate `\uD800`..`\uDBFF` that no `\u` escape of a
/// low surrogate follows.
pub open spec fn malformed_escape(b: Seq<u8>, i: int) -> bool {
    let u = i + 1 < b.len() && b[i + 1] == 0x75;
    let cp = hex4_value(b.subrange(i + 2, i + 6));
    ||| i + 1 >= b.len()
    ||| simple_escape(b[i + 1]) is None && b[i + 1] != 0x75
    ||| u && (i + 6 > b.len() || cp is None)
    ||| u && i + 6 <= b.len() && (cp matches Some(v) && 0xDC00 <= v <= 0xDFFF)
    ||| u && i + 6 <= b.len() && (cp matches Some(v) && 0xD800 <= v <= 0xDBFF) && !low_surrogate_at(
        b,
        i + 6,
    )
}

/// A high surrogate escape at `i` is followed by `\u` and fewer than four
/// more bytes: the pair is cut off by the end of the text.
pub open spec fn pair_cut_off(b: Seq<u8>, i: int) -> bool {
    &&& i + 8 <= b.len()
    &&& b[i + 1] == 0x75
    &&& b[i + 6] == 0x5c
    &&& b[i + 7] == 0x75
    &&& i + 12 > b.len()
}

proof fn lemma_hex4_range(d: Seq<u8>)
    requires
        d.len() >= 4,
    ensures
        hex4_value(d) matches Some(v) ==> 0 <= v <= 0xFFFF,
{
}

/// Which escapes fail to decode: unless a surrogate pair is cut off by the
/// end of the text, the escape at a backslash decodes to a character exactly
/// when it is not malformed (see [`malformed_escape`]), and decoding from
/// there fails exactly when it is malformed or the rest fails.
pub proof fn lemma_malformed_escape(b: Seq<u8>, i: int)
    requires
        0 <= i < b.len(),
        b[i] == 0x5c,
        !pair_cut_off(b, i),
    ensures
        escape_step(b, i) is Char <==> !malformed_escape(b, i),
        escape_step(b, i) is Invalid <==> malformed_escape(b, i),
        malformed_escape(b, i) ==> unescape_from(b, i) == Unescaped::Invalid,
        escape_step(b, i) matches EscapeStep::Char(c, next) ==> unescape_from(b, i) == prepend(
            seq![c],
            unescape_from(b, next),
        ),
{
    if i + 6 <= b.len() {
        lemma_hex4_range(b.subrange(i + 2, i + 6));
    }
    if i + 12 <= b.len() {
        lemma_hex4_range(b.subrange(i + 8, i + 12));
        assert(b.subrange(i + 8, i + 12) =~= b.subrange(i + 6 + 2, i + 6 + 6));
    }
    lemma_escape_step(b, i);
}

/// Whatever follows, the escape at a backslash decodes to a character
/// exactly when it is not malformed.
proof fn lemma_escape_char_iff(b: Seq<u8>, i: int)
    requires
        0 <= i < b.len(),
        b[i] == 0x5c,
    ensures
        escape_step(b, i) is Char <==> !malformed_escape(b, i),
{
    if i + 6 <= b.len() {
        lemma_hex4_range(b.subrange(i + 2, i + 6));
    }
    if i + 12 <= b.len() {
        lemma_hex4_range(b.subrange(i + 8, i + 12));
        assert(b.subrange(i + 8, i + 12) =~= b.subrange(i + 6 + 2, i + 6 + 6));
    }
}

/// Decoding from `from` reaches the escape whose backslash is at `i`: runs
/// of text and escapes that decode are stepped over until `i` is met.
pub open spec fn escape_reached(b: Seq<u8>, from: int, i: int) -> bool
    decreases b.len() - from,
{
    if from < 0 || from >= b.len() {
        false
    } else if b[from] != 0x5c {
        let e = backslash_from(b, from);
        proof {
            lemma_backslash_from(b, from);
        }
        if e <= from {
            false
        } else {
            escape_reached(b, e, i)
        }
    } else if from == i {
        true
    } else {
        proof {
            lemma_escape_step(b, from);
        }
        match escape_step(b, from) {
            EscapeStep::Char(_, next) => escape_reached(b, next, i),
            _ => false,
        }
    }
}

/// Decoding fails exactly when it reaches a malformed escape (see
/// [`malformed_escape`]): a lone backslash at the end, a backslash before
/// a byte that starts no escape, a `\u` without four hexadecimal digits, a
/// low surrogate with no high half before it, or a high surrogate that no
/// low one follows (a pair cut off by the end included). Otherwise the text
/// decodes.
pub proof fn lemma_decode_fails_iff(b: Seq<u8>, from: int)
    requires
        0 <= from,
    ensures
        !(unescape_from(b, from) is Text) <==> exists|i: int|
            #[trigger] escape_reached(b, from, i) && malformed_escape(b, i),
    decreases b.len() - from,
{
    if from < b.len() {
        if b[from] != 0x5c {
            let e = backslash_from(b, from);
            lemma_backslash_from(b, from);
            lemma_decode_fails_iff(b, e);
            if exists|i: int| #[trigger] escape_reached(b, e, i) && malformed_escape(b, i) {
                let i = choose|i: int| #[trigger] escape_reached(b, e, i) && malformed_escape(b, i);
                assert(escape_reached(b, from, i));
            }
            if exists|i: int| #[trigger] escape_reached(b, from, i) && malformed_escape(b, i) {
                let i = choose|i: int| #[trigger] escape_reached(b, from, i) && malformed_escape(b, i);
                assert(escape_reached(b, e, i));
            }
        } else {
            lemma_escape_step(b, from);
            lemma_escape_char_iff(b, from);
            match escape_step(b, from) {
                EscapeStep::Char(c, next) => {
                    lemma_decode_fails_iff(b, next);
                    assert(!malformed_escape(b, from));
                    if exists|i: int| #[trigger] escape_reached(b, next, i) && malformed_escape(b, i) {
                        let i = choose|i: int|
                            #[trigger] escape_reached(b, next, i) && malformed_escape(b, i);
                        assert(i != from ==> escape_reached(b, from, i));
                        if i == from {
                            assert(false);
                        }
                    }
                    if exists|i: int| #[trigger] escape_reached(b, from, i) && malformed_escape(b, i) {
                        let i = choose|i: int|
                            #[trigger] escape_reached(b, from, i) && malformed_escape(b, i);
                        assert(i != from);
                        assert(escape_reached(b, next, i));
                    }
                },
                _ => {
                    assert(escape_reached(b, from, from));
                },
            }
        }
    }
}

/// Decodes the escapes of the raw string bytes `b` from offset `i`: text
/// between escapes is kept and each escape is replaced by its character (see
/// [`escape_step`]).
pub open spec fn unescape_from(b: Seq<u8>, i: int) -> Unescaped
    decreases b.len() - i,
{
    if i < 0 || i >= b.len() {
        Unescaped::Text(seq![])
    } else if b[i] != 0x5c {
        let e = backslash_from(b, i);
        proof {
            lemma_backslash_from(b, i);
        }
        prepend(text_of(b, i, e), unescape_from(b, e))
    } else {
        proof {
            lemma_escape_step(b, i);
        }
        match escape_step(b, i) {
            EscapeStep::Char(c, next) => prepend(seq![c], unescape_from(b, next)),
            EscapeStep::Invalid => Unescaped::Invalid,
            EscapeStep::Overrun => Unescaped::Overrun,
        }
    }
}

/// What the escapes of the raw string `b` decode to.
pub open spec fn unescape(b: Seq<u8>) -> Unescaped {
    unescape_from(b, 0)
}

pub(crate) proof fn lemma_prepend_assoc(a: Seq<char>, c: Seq<char>, r: Unescaped)
    ensures
        prepend(a, prepend(c, r)) == prepend(a + c, r),
{
    match r {
        Unescaped::Text(t) => {
            assert(a + (c + t) =~= (a + c) + t);
        },
        _ => {},
    }
}

/// Text without a backslash decodes to itself.
pub proof fn lemma_unescape_plain(b: Seq<u8>)
    requires
        valid_utf8(b),
        forall|k: int| 0 <= k < b.len() ==> #[trigger] b[k] != 0x5c,
    ensures
        unescape(b) == Unescaped::Text(decode_utf8(b)),
{
    if b.len() > 0 {
        lemma_backslash_from(b, 0);
        assert(backslash_from(b, 0) == b.len());
        assert(unescape_from(b, b.len() as int) == Unescaped::Text(seq![]));
        assert(b.subrange(0, b.len() as int) =~= b);
        assert(decode_utf8(b) + seq![] =~= decode_utf8(b));
    } else {
        assert(decode_utf8(b) =~= seq![]) by {
            assert(b =~= seq![]);
        }
    }
}

/// The value of the four hexadecimal digits `b[at..at + 4]`, or `None` if
/// one of them is not a hexadecimal digit.
pub(crate) fn hex4(b: &[u8], at: usize) -> (r: Option<u16>)
    requires
        at + 4 <= b@.len(),
    ensures
        match hex4_value(b@.subrange(at as int, at + 4)) {
            Some(v) => r == Some(v as u16),
            None => r is None,
        },
{
    let ghost d = b@.subrange(at as int, at + 4);
    let len = b.len();
    let mut v: u16 = 0;
    let mut k: usize = 0;
    let ghost mut digits: Seq<int> = seq![];
    while k < 4
        invariant
            k <= 4,
            at + 4 <= b@.len(),
            len == b@.len(),
            d == b@.subrange(at as int, at + 4),
            digits.len() == k,
            forall|j: int| 0 <= j < k ==> hex_digit(d[j]) == Some(#[trigger] digits[j]),
            k == 0 ==> v == 0,
            k == 1 ==> v == digits[0],
            k == 2 ==> v == digits[0] * 16 + digits[1],
            k == 3 ==> v == (digits[0] * 16 + digits[1]) * 16 + digits[2],
            k == 4 ==> v == ((digits[0] * 16 + digits[1]) * 16 + digits[2]) * 16 + digits[3],
        decreases 4 - k,
    {
        let c = b[at + k];
        assert(d[k as int] == c);
        let n: u8 = if 0x30 <= c && c <= 0x39 {
            c - 0x30
        } else if 0x61 <= c && c <= 0x66 {
            c - 0x61 + 10
        } else if 0x41 <= c && c <= 0x46 {
            c - 0x41 + 10
        } else {
            return None;
        };
        proof {
            digits = digits.push(n as int);
        }
        v = v * 16 + n as u16;
        k += 1;
    }
    Some(v)
}

/// Decodes the escape whose backslash is at `i` (see [`escape_step`]):
/// its character and the offset after it, or `None`.
fn decode_escape(bytes: &[u8], i: usize) -> (r: Option<(char, usize)>)
    requires
        i < bytes@.len(),
    ensures
        match escape_step(bytes@, i as int) {
            EscapeStep::Char(c, next) => r == Some((c, next as usize)),
            _ => r is None,
        },
{
    let n = bytes.len();
    if n - i < 2 {
        return None;
    }
    let esc = bytes[i + 1];
    if esc == 0x22 {
        Some(('"', i + 2))
    } else if esc == 0x5c {
        Some(('\\', i + 2))
    } else if esc == 0x2f {
        Some(('/', i + 2))
    } else if esc == 0x62 {
        Some(('\x08', i + 2))
    } else if esc == 0x66 {
        Some(('\x0c', i + 2))
    } else if esc == 0x6e {
        Some(('\n', i + 2))
    } else if esc == 0x72 {
        Some(('\r', i + 2))
    } else if esc == 0x74 {
        Some(('\t', i + 2))
    } else if esc != 0x75 || n - i < 6 {
        None
    } else {
        let cp = match hex4(bytes, i + 2) {
            Some(v) => v,
            None => {
                return None;
            },
        };
        if 0xD800 <= cp && cp <= 0xDBFF && n - i >= 8 && bytes[i + 6] == 0x5c && bytes[i + 7]
            == 0x75 {
            if n - i < 12 {
                return None;
            }
            let low = match hex4(bytes, i + 8) {
                Some(v) => v,
                None => {
                    return None;
                },
            };
            if !(0xDC00 <= low && low <= 0xDFFF) {
                return None;
            }
            let value: u32 = 0x10000 + ((cp - 0xD800) as u32) * 1024 + ((low - 0xDC00) as u32);
            match text::char_from_u32(value) {
                Some(ch) => Some((ch, i + 12)),
                None => None,
            }
        } else {
            match text::char_from_u32(cp as u32) {
                Some(ch) => Some((ch, i + 6)),
                None => None,
            }
        }
    }
}

/// Decodes the escapes of a raw string (see [`unescape`]); `None` when it is
/// not a valid escaped string or a surrogate pair is cut off.
pub(crate) fn decode_escaped(raw: &str) -> (r: Option<String>)
    ensures
        match unescape(raw.spec_bytes()) {
            Unescaped::Text(t) => r matches Some(s) && s@ == t,
            _ => r is None,
        },
{
    let bytes = raw.as_bytes();
    let n = bytes.len();
    let mut out = String::new();
    let mut i: usize = 0;
    proof {
        text::lemma_str_bytes(raw);
        assert(out@ + seq![] =~= out@);
    }
    while i < n
        invariant
            bytes@ == raw.spec_bytes(),
            n == bytes@.len(),
            valid_utf8(bytes@),
            i <= n,
            text::boundary_at(bytes@, i as int),
            unescape(bytes@) == prepend(out@, unescape_from(bytes@, i as int)),
        decreases n - i,
    {
        let ghost b = bytes@;
        let c = bytes[i];
        if c != 0x5c {
            let mut e = i + 1;
            proof {
                lemma_backslash_from(b, i as int);
            }
            while e < n && bytes[e] != 0x5c
                invariant
                    i < e <= n,
                    n == b.len(),
                    b == bytes@,
                    backslash_from(b, i as int) == backslash_from(b, e as int),
                decreases n - e,
            {
                e += 1;
            }
            proof {
                lemma_backslash_from(b, e as int);
                if e < n {
                    assert(!is_continuation_byte(b[e as int]));
                }
            }
            let piece = text::substr(raw, i, e);
            proof {
                assert(unescape_from(b, i as int) == prepend(text_of(b, i as int, e as int), unescape_from(b, e as int)));
                lemma_prepend_assoc(out@, piece@, unescape_from(b, e as int));
            }
            text::append_str(&mut out, piece);
            i = e;
            assert(unescape(bytes@) == prepend(out@, unescape_from(bytes@, i as int)));
        } else {
            let (ch, next) = match decode_escape(bytes, i) {
                Some(step) => step,
                None => {
                    return None;
                },
            };
            let ghost old_out = out@;
            text::push_char(&mut out, ch);
            proof {
                lemma_escape_step(b, i as int);
                assert(unescape_from(b, i as int) == prepend(seq![ch], unescape_from(b, next as int)));
                lemma_prepend_assoc(old_out, seq![ch], unescape_from(b, next as int));
                text::lemma_after_ascii(b, next as int);
            }
            i = next;
            assert(unescape(bytes@) == prepend(out@, unescape_from(bytes@, i as int)));
        }
    }
    proof {
        assert(out@ + seq![] =~= out@);
    }
    Some(out)
}

/// Whether the bytes of `raw` hold a backslash.
pub(crate) fn contains_backslash(raw: &str) -> (r: bool)
    ensures
        r == exists|k: int| 0 <= k < raw.spec_bytes().len() && raw.spec_bytes()[k] == 0x5c,
{
    let bytes = raw.as_bytes();
    let mut k: usize = 0;
    while k < bytes.len()
        invariant
            k <= bytes@.len(),
            bytes@ == raw.spec_bytes(),
            forall|j: int| 0 <= j < k ==> bytes@[j] != 0x5c,
        decreases bytes.len() - k,
    {
        if bytes[k] == 0x5c {
            return true;
        }
        k += 1;
    }
    false
}

impl<'a> LazyVal<'a> {
    /// The decoded text of a string value; `None` if this is not a string or
    /// its escapes are invalid.
    pub fn as_str(&self) -> (r: Option<String>)
        requires
            self matches LazyVal::String(raw) ==> !(unescape(raw.spec_bytes()) is Overrun),
        ensures
            match self {
                LazyVal::String(raw) => match unescape(raw.spec_bytes()) {
                    Unescaped::Text(t) => r matches Some(s) && s@ == t,
                    _ => r is None,
                },
                _ => r is None,
            },
    {
        match self {
            LazyVal::String(raw) => {
                if contains_backslash(raw) {
                    decode_escaped(raw)
                } else {
                    proof {
                        text::lemma_str_bytes(*raw);
                        lemma_unescape_plain(raw.spec_bytes());
                    }
                    Some(text::to_owned_string(raw))
                }
            },
            _ => None,
        }
    }

    /// The number as an `i64`, exactly: `Some` only when its lexeme is an
    /// integer that fits. A lexeme with a fraction or an exponent, such as
    /// `1.5e1`, gives `None`; reading it through `f64` and truncating it is
    /// floating point, left to callers (the application layer's `as_i64`).
    pub fn as_exact_i64(&self) -> (r: Option<i64>)
        ensures
            match self {
                LazyVal::Number(lex) => r == integer_lexeme_i64(lex.spec_bytes()),
                _ => r is None,
            },
    {
        match self {
            LazyVal::Number(lex) => fast_parse_int(lex.as_bytes()),
            _ => None,
        }
    }

    /// The number as a `u64`, exactly: `Some` only when its lexeme is a
    /// non-negative integer that fits in an `i64`. Like
    /// [`LazyVal::as_exact_i64`], `1.5e1` gives `None` (the application
    /// layer's `as_u64` reads it through `f64`).
    pub fn as_exact_u64(&self) -> (r: Option<u64>)
        ensures
            match self {
                LazyVal::Number(lex) => match integer_lexeme_i64(lex.spec_bytes()) {
                    Some(n) => if n >= 0 {
                        r == Some(n as u64)
                    } else {
                        r is None
                    },
                    None => r is None,
                },
                _ => r is None,
            },
    {
        match self.as_exact_i64() {
            Some(n) => if n >= 0 {
                Some(n as u64)
            } else {
                None
            },
            None => None,
        }
    }
}

// ---------------------------------------------------------------------------
// Members in key order
// ---------------------------------------------------------------------------

/// The keys of `s` are in order (see [`key_le`]).
pub open spec fn keys_sorted(s: Seq<EntryModel>) -> bool {
    forall|i: int, j: int| 0 <= i < j < s.len() ==> key_le(#[trigger] s[i].key, #[trigger] s[j].key)
}

/// Where [`insert_by_key`] puts `e`: before the first member whose key does
/// not sort before `e`'s.
pub open spec fn insert_pos(s: Seq<EntryModel>, e: EntryModel) -> int
    decreases s.len(),
{
    if s.len() == 0 || key_le(e.key, s[0].key) {
        0
    } else {
        1 + insert_pos(s.drop_first(), e)
    }
}

/// `e` inserted into `s` before the first member whose key is at least
/// `e`'s, so that members with equal keys keep their order when a sequence
/// is sorted by inserting its members from the last to the first.
pub open spec fn insert_by_key(s: Seq<EntryModel>, e: EntryModel) -> Seq<EntryModel>
    decreases s.len(),
{
    if s.len() == 0 {
        seq![e]
    } else if key_le(e.key, s[0].key) {
        seq![e] + s
    } else {
        seq![s[0]] + insert_by_key(s.drop_first(), e)
    }
}

/// The members of `s` sorted by key; members with equal keys stay in the
/// order they had.
pub open spec fn sort_by_key(s: Seq<EntryModel>) -> Seq<EntryModel>
    decreases s.len(),
{
    if s.len() == 0 {
        s
    } else {
        insert_by_key(sort_by_key(s.drop_first()), s[0])
    }
}

pub proof fn lemma_insert_pos(s: Seq<EntryModel>, e: EntryModel)
    ensures
        0 <= insert_pos(s, e) <= s.len(),
        forall|j: int| 0 <= j < insert_pos(s, e) ==> !key_le(e.key, #[trigger] s[j].key),
        insert_pos(s, e) < s.len() ==> key_le(e.key, s[insert_pos(s, e)].key),
        insert_by_key(s, e) == s.take(insert_pos(s, e)) + seq![e] + s.skip(insert_pos(s, e)),
    decreases s.len(),
{
    let p = insert_pos(s, e);
    if s.len() == 0 {
        assert(s.take(0) + seq![e] + s.skip(0) =~= seq![e]);
    } else if key_le(e.key, s[0].key) {
        assert(s.take(0) + seq![e] + s.skip(0) =~= seq![e] + s);
    } else {
        let t = s.drop_first();
        lemma_insert_pos(t, e);
        assert forall|j: int| 0 <= j < p implies !key_le(e.key, #[trigger] s[j].key) by {
            if j > 0 {
                assert(s[j] == t[j - 1]);
            }
        }
        assert(s.take(p) + seq![e] + s.skip(p) =~= seq![s[0]] + (t.take(p - 1) + seq![e] + t.skip(
            p - 1,
        )));
    }
}

/// Inserting into a sorted sequence keeps it sorted.
pub proof fn lemma_insert_sorted(s: Seq<EntryModel>, e: EntryModel)
    requires
        keys_sorted(s),
    ensures
        keys_sorted(insert_by_key(s, e)),
        insert_by_key(s, e).len() == s.len() + 1,
{
    lemma_insert_pos(s, e);
    let p = insert_pos(s, e);
    let r = insert_by_key(s, e);
    assert forall|i: int, j: int| 0 <= i < j < r.len() implies key_le(
        #[trigger] r[i].key,
        #[trigger] r[j].key,
    ) by {
        if i < p && j < p {
            assert(r[i] == s[i] && r[j] == s[j]);
        } else if i < p && j == p {
            lemma_key_le_total(e.key, s[i].key);
        } else if i < p {
            assert(r[i] == s[i] && r[j] == s[j - 1]);
        } else if i == p {
            assert(r[j] == s[j - 1]);
            if j - 1 > p {
                lemma_key_le_trans(e.key, s[p].key, s[j - 1].key);
            }
        } else {
            assert(r[i] == s[i - 1] && r[j] == s[j - 1]);
        }
    }
}

/// Sorting by key yields keys in order.
pub proof fn lemma_sort_sorted(s: Seq<EntryModel>)
    ensures
        keys_sorted(sort_by_key(s)),
        sort_by_key(s).len() == s.len(),
    decreases s.len(),
{
    if s.len() > 0 {
        lemma_sort_sorted(s.drop_first());
        lemma_insert_sorted(sort_by_key(s.drop_first()), s[0]);
    }
}

proof fn lemma_entries_view_insert<'a>(v: Seq<LazyObjectEntry<'a>>, p: int, e: LazyObjectEntry<'a>)
    requires
        0 <= p <= v.len(),
    ensures
        entries_view(v.insert(p, e)) == entries_view(v).take(p) + seq![e@] + entries_view(v).skip(p),
{
    assert(entries_view(v.insert(p, e)) =~= entries_view(v).take(p) + seq![e@] + entries_view(
        v,
    ).skip(p));
}

/// Inserts `e` into `sorted` by key (see [`insert_by_key`]).
fn insert_entry<'a>(sorted: &mut Vec<LazyObjectEntry<'a>>, e: LazyObjectEntry<'a>)
    ensures
        entries_view(final(sorted)@) == insert_by_key(entries_view(old(sorted)@), e@),
{
    let ghost s = entries_view(sorted@);
    let ghost orig = sorted@;
    proof {
        lemma_insert_pos(s, e@);
    }
    let mut p: usize = 0;
    while p < sorted.len()
        invariant
            s == entries_view(sorted@),
            sorted@ == orig,
            p <= sorted@.len(),
            p <= insert_pos(s, e@) <= s.len(),
            forall|j: int| 0 <= j < insert_pos(s, e@) ==> !key_le(e@.key, #[trigger] s[j].key),
        ensures
            p == insert_pos(s, e@),
        decreases sorted.len() - p,
    {
        proof {
            lemma_insert_pos(s, e@);
            assert(s[p as int] == sorted@[p as int]@);
        }
        let ek = e.key.as_ref();
        let pk = sorted[p].key.as_ref();
        if str_le(ek, pk) {
            assert(key_le(e@.key, s[p as int].key));
            break;
        }
        p += 1;
    }
    proof {
        lemma_insert_pos(s, e@);
    }
    sorted.insert(p, e);
    proof {
        lemma_entries_view_insert(orig, p as int, e);
        assert(p == insert_pos(s, e@));
    }
}

/// The members sorted by key (see [`sort_by_key`]).
pub(crate) fn sort_entries<'a>(entries: Vec<LazyObjectEntry<'a>>) -> (r: Vec<LazyObjectEntry<'a>>)
    ensures
        entries_view(r@) == sort_by_key(entries_view(entries@)),
{
    let ghost all = entries_view(entries@);
    let mut rest = entries;
    let mut sorted: Vec<LazyObjectEntry<'a>> = Vec::new();
    proof {
        assert(all.skip(all.len() as int) =~= seq![]);
        assert(entries_view(sorted@) =~= seq![]);
    }
    while rest.len() > 0
        invariant
            rest@.len() <= all.len(),
            entries_view(rest@) == all.take(rest@.len() as int),
            entries_view(sorted@) == sort_by_key(all.skip(rest@.len() as int)),
        decreases rest.len(),
    {
        let ghost k = rest@.len() as int;
        let ghost before = rest@;
        let e = rest.pop().unwrap();
        proof {
            assert(e@ == entries_view(before)[k - 1]);
            assert(entries_view(rest@) =~= all.take(k - 1));
            let t = all.skip(k - 1);
            assert(t[0] == all[k - 1]);
            assert(t.drop_first() =~= all.skip(k));
        }
        insert_entry(&mut sorted, e);
    }
    proof {
        assert(all.skip(0) =~= all);
    }
    sorted
}

/// Index of the first member of `s` whose key is `k`, or -1 if there is none.
pub open spec fn key_index(s: Seq<EntryModel>, k: Seq<char>) -> int
    decreases s.len(),
{
    if s.len() == 0 {
        -1
    } else if s[0].key == k {
        0
    } else if key_index(s.drop_first(), k) < 0 {
        -1
    } else {
        key_index(s.drop_first(), k) + 1
    }
}

pub proof fn lemma_key_index(s: Seq<EntryModel>, k: Seq<char>)
    ensures
        -1 <= key_index(s, k) < s.len(),
        key_index(s, k) >= 0 ==> s[key_index(s, k)].key == k,
        forall|j: int|
            0 <= j < s.len() && (key_index(s, k) < 0 || j < key_index(s, k)) ==> #[trigger] s[j].key
                != k,
    decreases s.len(),
{
    if s.len() > 0 && s[0].key != k {
        let t = s.drop_first();
        lemma_key_index(t, k);
        assert forall|j: int|
            0 <= j < s.len() && (key_index(s, k) < 0 || j < key_index(s, k)) implies #[trigger] s[j].key
                != k by {
            if j > 0 {
                assert(s[j] == t[j - 1]);
            }
        }
    }
}

impl<'a> LazyVal<'a> {
    /// The value of the member with key `key`: a binary search over the
    /// members, which the parser leaves sorted. With sorted members this is
    /// the first member with that key, and `None` when there is none; with
    /// members in another order, a member with that key or `None`.
    pub fn get(&self, key: &str) -> (r: Option<&LazyNode<'a>>)
        ensures
            match self {
                LazyVal::Object(members) => {
                    &&& (r matches Some(n) ==> exists|i: int|
                        0 <= i < members@.len() && members@[i].key@ == key@ && *n
                            == members@[i].value)
                    &&& (keys_sorted(entries_view(members@)) ==> if key_index(
                        entries_view(members@),
                        key@,
                    ) < 0 {
                        r is None
                    } else {
                        r == Some(&members@[key_index(entries_view(members@), key@)].value)
                    })
                },
                _ => r is None,
            },
    {
        match self {
            LazyVal::Object(members) => {
                let ghost s = entries_view(members@);
                let ghost sorted = keys_sorted(s);
                let n = members.len();
                let mut lo: usize = 0;
                let mut hi: usize = n;
                while lo < hi
                    invariant
                        s == entries_view(members@),
                        sorted == keys_sorted(s),
                        n == members@.len(),
                        lo <= hi <= n,
                        sorted ==> forall|j: int| 0 <= j < lo ==> !key_le(key@, #[trigger] s[j].key),
                        sorted ==> forall|j: int| hi <= j < n ==> key_le(key@, #[trigger] s[j].key),
                    decreases hi - lo,
                {
                    let mid = lo + (hi - lo) / 2;
                    let mk = members[mid].key.as_ref();
                    assert(s[mid as int] == members@[mid as int]@);
                    if str_le(key, mk) {
                        proof {
                            if sorted {
                                assert forall|j: int| mid <= j < n implies key_le(
                                    key@,
                                    #[trigger] s[j].key,
                                ) by {
                                    if j > mid {
                                        lemma_key_le_trans(key@, s[mid as int].key, s[j].key);
                                    }
                                }
                            }
                        }
                        hi = mid;
                    } else {
                        proof {
                            if sorted {
                                assert forall|j: int| 0 <= j <= mid implies !key_le(
                                    key@,
                                    #[trigger] s[j].key,
                                ) by {
                                    if j < mid && key_le(key@, s[j].key) {
                                        lemma_key_le_trans(key@, s[j].key, s[mid as int].key);
                                    }
                                }
                            }
                        }
                        lo = mid + 1;
                    }
                }
                proof {
                    lemma_key_index(s, key@);
                    lemma_key_le_refl(key@);
                }
                if lo < n {
                    let lk = members[lo].key.as_ref();
                    assert(s[lo as int] == members@[lo as int]@);
                    if str_eq(lk, key) {
                        proof {
                            if sorted {
                                assert forall|j: int| 0 <= j < lo implies #[trigger] s[j].key != key@ by {
                                    if s[j].key == key@ {
                                        lemma_key_le_refl(key@);
                                    }
                                }
                                assert(s[lo as int].key == key@);
                                let k = key_index(s, key@);
                                if k > lo as int {
                                    assert(s[lo as int].key != key@);
                                }
                                assert(k == lo);
                            }
                            assert(members@[lo as int].key@ == key@);
                        }
                        return Some(&members[lo].value);
                    }
                    proof {
                        if sorted && key_index(s, key@) >= 0 {
                            let k = key_index(s, key@);
                            assert(s[k].key == key@);
                            if k < lo {
                                lemma_key_le_refl(key@);
                            } else if k > lo {
                                lemma_key_le_antisym(s[lo as int].key, key@);
                            }
                        }
                    }
                } else {
                    proof {
                        if sorted && key_index(s, key@) >= 0 {
                            let k = key_index(s, key@);
                            assert(s[k].key == key@);
                            lemma_key_le_refl(key@);
                        }
                    }
                }
                None
            },
            _ => None,
        }
    }
}

impl<'a> LazyVal<'a> {
    /// The array elements in order; nothing if this is not an array.
    pub fn iter_array<'b>(&'b self) -> (r: std::vec::IntoIter<&'b LazyNode<'a>>)
        ensures
            match self {
                LazyVal::Array(items) => {
                    &&& r.remaining().len() == items@.len()
                    &&& forall|i: int| 0 <= i < items@.len() ==> *r.remaining()[i] == items@[i]
                },
                _ => r.remaining().len() == 0,
            },
    {
        let mut out: Vec<&'b LazyNode<'a>> = Vec::new();
        match self {
            LazyVal::Array(items) => {
                let mut i: usize = 0;
                while i < items.len()
                    invariant
                        i <= items@.len(),
                        out@.len() == i,
                        forall|j: int| 0 <= j < i ==> *out@[j] == items@[j],
                    decreases items.len() - i,
                {
                    out.push(&items[i]);
                    i += 1;
                }
            },
            _ => {},
        }
        out.into_iter()
    }

    /// The object members as `(key, value)` pairs in key order; nothing if
    /// this is not an object.
    pub fn iter_object<'b>(&'b self) -> (r: std::vec::IntoIter<(&'b str, &'b LazyNode<'a>)>)
        ensures
            match self {
                LazyVal::Object(members) => {
                    &&& r.remaining().len() == members@.len()
                    &&& forall|i: int|
                        0 <= i < members@.len() ==> r.remaining()[i].0@ == members@[i].key@
                            && *r.remaining()[i].1 == members@[i].value
                },
                _ => r.remaining().len() == 0,
            },
    {
        let mut out: Vec<(&'b str, &'b LazyNode<'a>)> = Vec::new();
        match self {
            LazyVal::Object(members) => {
                let mut i: usize = 0;
                while i < members.len()
                    invariant
                        i <= members@.len(),
                        out@.len() == i,
                        forall|j: int|
                            0 <= j < i ==> out@[j].0@ == members@[j].key@ && *out@[j].1
                                == members@[j].value,
                    decreases members.len() - i,
                {
                    let e = &members[i];
                    out.push((e.key.as_ref(), &e.value));
                    i += 1;
                }
            },
            _ => {},
        }
        out.into_iter()
    }
}

// ---------------------------------------------------------------------------
// Sorted trees
// ---------------------------------------------------------------------------

/// Every object in the node has its members sorted by key.
pub open spec fn node_sorted(n: NodeModel) -> bool
    decreases n,
{
    val_sorted(n.value)
}

/// Every object in the value has its members sorted by key.
pub open spec fn val_sorted(v: ValModel) -> bool
    decreases v,
{
    match v {
        ValModel::Array(items) => forall|i: int|
            0 <= i < items.len() ==> node_sorted(#[trigger] items[i]),
        ValModel::Object(es) => keys_sorted(es) && forall|i: int|
            0 <= i < es.len() ==> node_sorted(#[trigger] es[i].value),
        _ => true,
    }
}

/// Every member's value is sorted.
pub open spec fn values_sorted(s: Seq<EntryModel>) -> bool {
    forall|i: int| 0 <= i < s.len() ==> node_sorted(#[trigger] s[i].value)
}

pub proof fn lemma_insert_values_sorted(s: Seq<EntryModel>, e: EntryModel)
    requires
        values_sorted(s),
        node_sorted(e.value),
    ensures
        values_sorted(insert_by_key(s, e)),
{
    lemma_insert_pos(s, e);
    let p = insert_pos(s, e);
    let r = insert_by_key(s, e);
    assert forall|i: int| 0 <= i < r.len() implies node_sorted(#[trigger] r[i].value) by {
        if i < p {
            assert(r[i] == s[i]);
        } else if i > p {
            assert(r[i] == s[i - 1]);
        }
    }
}

/// Sorting members keeps their values as they are.
pub proof fn lemma_sort_values_sorted(s: Seq<EntryModel>)
    requires
        values_sorted(s),
    ensures
        values_sorted(sort_by_key(s)),
    decreases s.len(),
{
    if s.len() > 0 {
        let t = s.drop_first();
        assert(values_sorted(t)) by {
            assert forall|i: int| 0 <= i < t.len() implies node_sorted(#[trigger] t[i].value) by {
                assert(t[i] == s[i + 1]);
            }
        }
        lemma_sort_values_sorted(t);
        lemma_insert_values_sorted(sort_by_key(t), s[0]);
    }
}

/// Inserting adds exactly the one member.
pub proof fn lemma_insert_multiset(s: Seq<EntryModel>, e: EntryModel)
    ensures
        insert_by_key(s, e).to_multiset() == s.to_multiset().insert(e),
{
    broadcast use vstd::multiset::group_multiset_axioms;

    lemma_insert_pos(s, e);
    let p = insert_pos(s, e);
    let a = s.take(p);
    let c = s.skip(p);
    vstd::seq_lib::lemma_multiset_commutative(a + seq![e], c);
    vstd::seq_lib::lemma_multiset_commutative(a, seq![e]);
    vstd::seq_lib::lemma_multiset_commutative(a, c);
    assert(a + c =~= s);
    assert(seq![e].to_multiset() =~= vstd::multiset::Multiset::empty().insert(e)) by {
        assert(seq![e] =~= Seq::<EntryModel>::empty().push(e));
        Seq::<EntryModel>::empty().to_multiset_ensures();
    }
    assert(insert_by_key(s, e).to_multiset() =~= s.to_multiset().insert(e));
}

/// Sorting by key keeps the members: the result holds each member as often
/// as the input does.
pub proof fn lemma_sort_multiset(s: Seq<EntryModel>)
    ensures
        sort_by_key(s).to_multiset() == s.to_multiset(),
    decreases s.len(),
{
    broadcast use vstd::multiset::group_multiset_axioms;

    if s.len() == 0 {
        assert(sort_by_key(s) == s);
    } else {
        let t = s.drop_first();
        lemma_sort_multiset(t);
        lemma_insert_multiset(sort_by_key(t), s[0]);
        vstd::seq_lib::lemma_multiset_commutative(seq![s[0]], t);
        assert(seq![s[0]] + t =~= s);
        assert(seq![s[0]].to_multiset() =~= vstd::multiset::Multiset::empty().insert(s[0])) by {
            assert(seq![s[0]] =~= Seq::<EntryModel>::empty().push(s[0]));
            Seq::<EntryModel>::empty().to_multiset_ensures();
        }
        assert(sort_by_key(s).to_multiset() =~= s.to_multiset());
    }
}

// ---------------------------------------------------------------------------
// Owned copies
// ---------------------------------------------------------------------------

/// Every string of the value can be decoded without running past its end
/// (see [`Unescaped::Overrun`]).
pub open spec fn strings_decodable(v: ValModel) -> bool
    decreases v,
{
    match v {
        ValModel::String(raw) => !(unescape(raw) is Overrun),
        ValModel::Array(items) => forall|i: int|
            0 <= i < items.len() ==> strings_decodable(#[trigger] items[i].value),
        ValModel::Object(es) => forall|i: int|
            0 <= i < es.len() ==> strings_decodable(#[trigger] es[i].value.value),
        _ => true,
    }
}

/// The owned value of a lazy one: integers that fit in an `i64` as such,
/// other numbers as their lexeme, strings decoded (empty when their escapes
/// are invalid), members in the same order, and no comments.
pub open spec fn owned_of(v: ValModel) -> ValueView
    decreases v,
{
    match v {
        ValModel::Null => ValueView::Null,
        ValModel::Bool(b) => ValueView::Bool(b),
        ValModel::Number(lex) => match integer_lexeme_i64(lex) {
            Some(n) => ValueView::Number(NumberView::Int(n)),
            None => ValueView::Number(NumberView::Float(decode_utf8(lex))),
        },
        ValModel::String(raw) => ValueView::String(
            match unescape(raw) {
                Unescaped::Text(t) => t,
                _ => seq![],
            },
        ),
        ValModel::Array(items) => ValueView::Array(
            Seq::new(
                items.len(),
                |i: int|
                    if 0 <= i < items.len() {
                        NodeView { value: owned_of(items[i].value), trivia: seq![], comma: false }
                    } else {
                        arbitrary()
                    },
            ),
        ),
        ValModel::Object(es) => ValueView::Object(
            Seq::new(
                es.len(),
                |i: int|
                    if 0 <= i < es.len() {
                        EntryView {
                            key: es[i].key,
                            key_trivia: seq![],
                            value: NodeView {
                                value: owned_of(es[i].value.value),
                                trivia: seq![],
                                comma: false,
                            },
                        }
                    } else {
                        arbitrary()
                    },
            ),
        ),
    }
}

impl<'a> LazyVal<'a> {
    /// Copies the value into an owned [`Value`] (see [`owned_of`]): every
    /// string and number decoded, every key copied, comments left behind.
    pub fn to_value(&self) -> (r: Value)
        requires
            strings_decodable(self@),
        ensures
            r@ == owned_of(self@),
        decreases self,
    {
        match self {
            LazyVal::Null => Value::Null,
            LazyVal::Bool(b) => Value::Bool(*b),
            LazyVal::Number(lex) => {
                proof {
                    text::lemma_str_bytes(*lex);
                }
                match fast_parse_int(lex.as_bytes()) {
                    Some(n) => Value::Number(Number::Int(n)),
                    None => Value::Number(Number::Float(text::to_owned_string(lex))),
                }
            },
            LazyVal::String(_) => {
                let s = match self.as_str() {
                    Some(s) => s,
                    None => String::new(),
                };
                Value::String(s)
            },
            LazyVal::Array(items) => {
                let mut out: Vec<Node> = Vec::new();
                let mut i: usize = 0;
                proof {
                    lemma_array_view(*items);
                }
                while i < items.len()
                    invariant
                        i <= items@.len(),
                        *self == LazyVal::Array(*items),
                        self@ == ValModel::Array(nodes_view(items@)),
                        strings_decodable(self@),
                        out@.len() == i,
                        forall|j: int|
                            0 <= j < i ==> #[trigger] out@[j]@ == (NodeView {
                                value: owned_of(items@[j].value@),
                                trivia: seq![],
                                comma: false,
                            }),
                    decreases items.len() - i,
                {
                    assert(nodes_view(items@)[i as int] == items@[i as int]@);
                    let v = items[i].value.to_value();
                    let node = Node { value: v, trivia: Vec::new(), comma: false };
                    proof {
                        assert(node@.trivia =~= seq![]);
                    }
                    out.push(node);
                    i += 1;
                }
                proof {
                    crate::ast::lemma_array_value_view(out);
                    assert(crate::ast::node_views(out@) =~= owned_of(self@)->Array_0);
                }
                Value::Array(out)
            },
            LazyVal::Object(members) => {
                let mut out: Vec<ObjectEntry> = Vec::new();
                let mut i: usize = 0;
                proof {
                    lemma_object_view(*members);
                }
                while i < members.len()
                    invariant
                        i <= members@.len(),
                        *self == LazyVal::Object(*members),
                        self@ == ValModel::Object(entries_view(members@)),
                        strings_decodable(self@),
                        out@.len() == i,
                        forall|j: int|
                            0 <= j < i ==> #[trigger] out@[j]@ == (EntryView {
                                key: members@[j].key@,
                                key_trivia: seq![],
                                value: NodeView {
                                    value: owned_of(members@[j].value.value@),
                                    trivia: seq![],
                                    comma: false,
                                },
                            }),
                    decreases members.len() - i,
                {
                    assert(entries_view(members@)[i as int] == members@[i as int]@);
                    assert(strings_decodable(entries_view(members@)[i as int].value.value));
                    let e = &members[i];
                    let v = e.value.value.to_value();
                    let key = text::to_owned_string(e.key.as_ref());
                    let entry = ObjectEntry {
                        key,
                        key_trivia: Vec::new(),
                        value: Node { value: v, trivia: Vec::new(), comma: false },
                    };
                    proof {
                        assert(entry@.key_trivia =~= seq![]);
                        assert(entry@.value.trivia =~= seq![]);
                    }
                    out.push(entry);
                    i += 1;
                }
                proof {
                    crate::ast::lemma_object_value_view(out);
                    assert(crate::ast::entry_views(out@) =~= owned_of(self@)->Object_0);
                }
                Value::Object(out)
            },
        }
    }
}

// ---------------------------------------------------------------------------
// Scanned strings decode
// ---------------------------------------------------------------------------

/// A text run from a position the scanner reaches ends at the closing quote
/// or at a backslash the scanner reaches too.
proof fn lemma_scanned_run(b: Seq<u8>, i: int, j: int, e: int)
    requires
        0 <= i <= j < e,
        scan_string_end(b, j) == Ok::<int, ParseFail>(e),
        b.subrange(i, e)[j - i] != 0x5c,
    ensures
        ({
            let raw = b.subrange(i, e);
            let bs = backslash_from(raw, j - i);
            j - i < bs && (bs == raw.len() || scan_string_end(b, i + bs) == Ok::<int, ParseFail>(e))
        }),
{
    lemma_scan_string_end(b, j);
    let raw = b.subrange(i, e);
    let r = j - i;
    let s = crate::simd::string_end_from(b, j);
    crate::simd::lemma_first_match(b, j, crate::simd::ByteClass::StringStop);
    lemma_backslash_from(raw, r);
    let bs = backslash_from(raw, r);
    assert(raw[r] == b[j]);
    if b[s] == 0x22 {
        if bs < raw.len() {
            assert(raw[bs] == b[i + bs]);
        }
    } else {
        assert(raw[s - i] == b[s]);
        crate::simd::lemma_first_match(b, s, crate::simd::ByteClass::StringStop);
        if bs < s - i {
            assert(raw[bs] == b[i + bs]);
        }
        assert(scan_string_end(b, s) == scan_string_end(b, j));
    }
}

/// An escape at a backslash the scanner reaches never runs past the closing
/// quote, and ends where the scanner goes on.
proof fn lemma_scanned_escape(b: Seq<u8>, i: int, j: int, e: int)
    requires
        0 <= i <= j < e,
        scan_string_end(b, j) == Ok::<int, ParseFail>(e),
        b.subrange(i, e)[j - i] == 0x5c,
    ensures
        ({
            let raw = b.subrange(i, e);
            let step = escape_step(raw, j - i);
            &&& !(step is Overrun)
            &&& (step matches EscapeStep::Char(_, next) ==> j - i < next && scan_string_end(
                b,
                i + next,
            ) == Ok::<int, ParseFail>(e))
        }),
{
    lemma_scan_string_end(b, j);
    let raw = b.subrange(i, e);
    let r = j - i;
    crate::simd::lemma_first_match(b, j, crate::simd::ByteClass::StringStop);
    assert(b[j] == raw[r]);
    let nxt = if b[j + 1] == 0x75 {
        j + 6
    } else {
        j + 2
    };
    assert(scan_string_end(b, j) == scan_string_end(b, nxt));
    lemma_scan_string_end(b, nxt);
    assert(raw[r + 1] == b[j + 1]);
    let twelve = b[j + 1] == 0x75 && r + 8 <= raw.len() && raw[r + 6] == 0x5c && raw[r + 7]
        == 0x75;
    if twelve {
        assert(b[j + 6] == raw[r + 6] && b[j + 7] == raw[r + 7]);
        crate::simd::lemma_first_match(b, j + 6, crate::simd::ByteClass::StringStop);
        assert(scan_string_end(b, j + 6) == scan_string_end(b, j + 12));
        lemma_scan_string_end(b, j + 12);
    }
    lemma_escape_step(raw, r);
}

/// The escapes the decoder reads in a string's raw text are the ones the
/// scanner skipped: from a position the scanner reaches, decoding never runs
/// past the closing quote.
pub proof fn lemma_scanned_no_overrun(b: Seq<u8>, i: int, j: int, e: int)
    requires
        0 <= i <= j,
        scan_string_end(b, j) == Ok::<int, ParseFail>(e),
        i <= e,
    ensures
        !(unescape_from(b.subrange(i, e), j - i) is Overrun),
    decreases b.len() + 6 - j,
{
    lemma_scan_string_end(b, j);
    let raw = b.subrange(i, e);
    let r = j - i;
    if r < raw.len() {
        if raw[r] != 0x5c {
            lemma_scanned_run(b, i, j, e);
            let bs = backslash_from(raw, r);
            if bs < raw.len() {
                lemma_scanned_no_overrun(b, i, i + bs, e);
            }
        } else {
            lemma_scanned_escape(b, i, j, e);
            if let EscapeStep::Char(c, next) = escape_step(raw, r) {
                lemma_scanned_no_overrun(b, i, i + next, e);
            }
        }
    }
}

} // verus!
