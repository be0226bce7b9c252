//! Documents as trees of values with the comments attached to them.

use vstd::prelude::*;
use crate::text::{append_str, to_owned_string};

verus! {

broadcast use vstd::string::group_string_axioms;

/// A comment: `// text` up to the end of the line, or `/* text */`. The text
/// is held without the comment markers.
#[derive(Debug, Clone, PartialEq, Eq)]
pub enum Trivia {
    LineComment(String),
    BlockComment(String),
}

/// A comment as the proofs see it: its kind and its characters.
#[verifier::ext_equal]
pub enum TriviaView {
    LineComment(Seq<char>),
    BlockComment(Seq<char>),
}

impl View for Trivia {
    type V = TriviaView;

    open spec fn view(&self) -> TriviaView {
        match self {
            Trivia::LineComment(c) => TriviaView::LineComment(c@),
            Trivia::BlockComment(c) => TriviaView::BlockComment(c@),
        }
    }
}

/// The comments of a list, as the proofs see them.
pub open spec fn trivia_view(v: Seq<Trivia>) -> Seq<TriviaView> {
    v.map_values(|t: Trivia| t@)
}

impl TriviaView {
    pub open spec fn content(self) -> Seq<char> {
        match self {
            TriviaView::LineComment(c) => c,
            TriviaView::BlockComment(c) => c,
        }
    }

    /// The comment as source text, markers included.
    pub open spec fn source_text(self) -> Seq<char> {
        match self {
            TriviaView::LineComment(c) => "//"@ + c,
            TriviaView::BlockComment(c) => "/*"@ + c + "*/"@,
        }
    }
}

impl Trivia {
    /// A line comment with exactly `text` (no markers are stripped).
    pub fn line(text: &str) -> (t: Self)
        ensures
            t@ == TriviaView::LineComment(text@),
    {
        Trivia::LineComment(to_owned_string(text))
    }

    /// A block comment with exactly `text` (no markers are stripped).
    pub fn block(text: &str) -> (t: Self)
        ensures
            t@ == TriviaView::BlockComment(text@),
    {
        Trivia::BlockComment(to_owned_string(text))
    }

    pub fn is_line(&self) -> (r: bool)
        ensures
            r <==> self@ is LineComment,
    {
        matches!(self, Trivia::LineComment(_))
    }

    pub fn is_block(&self) -> (r: bool)
        ensures
            r <==> self@ is BlockComment,
    {
        matches!(self, Trivia::BlockComment(_))
    }

    /// The comment's text, without markers.
    pub fn text(&self) -> (r: &str)
        ensures
            r@ == self@.content(),
    {
        match self {
            Trivia::LineComment(c) => c.as_str(),
            Trivia::BlockComment(c) => c.as_str(),
        }
    }

    /// The text of a line comment; `None` for a block comment.
    pub fn as_line_comment(&self) -> (r: Option<String>)
        ensures
            match self@ {
                TriviaView::LineComment(c) => r matches Some(s) && s@ == c,
                TriviaView::BlockComment(_) => r is None,
            },
    {
        if let Trivia::LineComment(c) = self {
            Some(c.clone())
        } else {
            None
        }
    }

    /// The text of a block comment; `None` for a line comment.
    pub fn as_block_comment(&self) -> (r: Option<String>)
        ensures
            match self@ {
                TriviaView::BlockComment(c) => r matches Some(s) && s@ == c,
                TriviaView::LineComment(_) => r is None,
            },
    {
        if let Trivia::BlockComment(c) = self {
            Some(c.clone())
        } else {
            None
        }
    }

    /// Turns a block comment into a line comment with the same text; a line
    /// comment stays as it is.
    pub fn make_line_comment(&mut self)
        ensures
            final(self)@ == TriviaView::LineComment(old(self)@.content()),
    {
        if let Trivia::BlockComment(c) = self {
            let t = c.clone();
            *self = Trivia::LineComment(t);
        }
    }

    /// Turns a line comment into a block comment with the same text; a block
    /// comment stays as it is.
    pub fn make_block_comment(&mut self)
        ensures
            final(self)@ == TriviaView::BlockComment(old(self)@.content()),
    {
        if let Trivia::LineComment(c) = self {
            let t = c.clone();
            *self = Trivia::BlockComment(t);
        }
    }

    /// The comment as source text: `//text` or `/*text*/`.
    pub fn to_string(&self) -> (s: String)
        ensures
            s@ == self@.source_text(),
    {
        match self {
            Trivia::LineComment(c) => {
                let mut s = to_owned_string("//");
                append_str(&mut s, c.as_str());
                s
            },
            Trivia::BlockComment(c) => {
                let mut s = to_owned_string("/*");
                append_str(&mut s, c.as_str());
                append_str(&mut s, "*/");
                s
            },
        }
    }
}

/// A `String` becomes a line comment with that text.
impl From<String> for Trivia {
    fn from(s: String) -> (t: Self) {
        Trivia::LineComment(s)
    }
}

impl vstd::std_specs::convert::FromSpecImpl<String> for Trivia {
    open spec fn obeys_from_spec() -> bool {
        true
    }

    open spec fn from_spec(v: String) -> Self {
        Trivia::LineComment(v)
    }
}

// ---------------------------------------------------------------------------
// Owned documents
// ---------------------------------------------------------------------------

/// A number: an integer that fits in an `i64`, or any other number, held as
/// the text it was written with (a decimal that `f64` parsing accepts).
#[derive(Debug, PartialEq)]
pub enum Number {
    Int(i64),
    Float(String),
}

/// A value of a document.
#[derive(Debug, PartialEq)]
pub enum Value {
    Null,
    Bool(bool),
    Number(Number),
    String(String),
    Array(Vec<Node>),
    Object(Vec<ObjectEntry>),
    /// A value whose text has not been parsed yet, or has been parsed once
    /// on demand (see [`LazyValue::thaw`]).
    Lazy(Box<LazyValue>),
}

/// A value held as its source text until it is needed: of any kind, or
/// declared to be an object or an array. `Parsed` holds the value once the
/// text has been read.
#[derive(Debug, PartialEq)]
pub enum LazyValue {
    Unknown(String),
    UnknownObject(String),
    UnknownVector(String),
    Parsed(Value),
}

/// An object member: `key_trivia` holds the comments before the key,
/// `value.trivia` those between the key and the value.
#[derive(Debug, PartialEq)]
pub struct ObjectEntry {
    pub key: String,
    pub key_trivia: Vec<Trivia>,
    pub value: Node,
}

/// A value with the comments before it, and whether a comma follows it.
#[derive(Debug, PartialEq)]
pub struct Node {
    pub value: Value,
    pub trivia: Vec<Trivia>,
    pub comma: bool,
}

/// A number as the proofs see it.
pub enum NumberView {
    Int(i64),
    Float(Seq<char>),
}

/// A value as the proofs see it.
#[verifier::ext_equal]
pub enum ValueView {
    Null,
    Bool(bool),
    Number(NumberView),
    String(Seq<char>),
    Array(Seq<NodeView>),
    Object(Seq<EntryView>),
    Lazy(Box<LazyView>),
}

/// A deferred value as the proofs see it.
#[verifier::ext_equal]
pub enum LazyView {
    Unknown(Seq<char>),
    UnknownObject(Seq<char>),
    UnknownVector(Seq<char>),
    Parsed(ValueView),
}

#[verifier::ext_equal]
pub struct NodeView {
    pub value: ValueView,
    pub trivia: Seq<TriviaView>,
    pub comma: bool,
}

#[verifier::ext_equal]
pub struct EntryView {
    pub key: Seq<char>,
    pub key_trivia: Seq<TriviaView>,
    pub value: NodeView,
}

pub open spec fn number_view(n: Number) -> NumberView {
    match n {
        Number::Int(i) => NumberView::Int(i),
        Number::Float(s) => NumberView::Float(s@),
    }
}

/// The model of a value.
pub open spec fn value_view(v: Value) -> ValueView
    decreases v,
{
    match v {
        Value::Null => ValueView::Null,
        Value::Bool(b) => ValueView::Bool(b),
        Value::Number(n) => ValueView::Number(number_view(n)),
        Value::String(s) => ValueView::String(s@),
        Value::Array(items) => ValueView::Array(
            Seq::new(
                items@.len(),
                |i: int| if 0 <= i < items@.len() { node_view(items@[i]) } else { arbitrary() },
            ),
        ),
        Value::Object(members) => ValueView::Object(
            Seq::new(
                members@.len(),
                |i: int| if 0 <= i < members@.len() { entry_view(members@[i]) } else { arbitrary() },
            ),
        ),
        Value::Lazy(l) => ValueView::Lazy(Box::new(lazy_view(*l))),
    }
}

/// The model of a deferred value.
pub open spec fn lazy_view(l: LazyValue) -> LazyView
    decreases l,
{
    match l {
        LazyValue::Unknown(raw) => LazyView::Unknown(raw@),
        LazyValue::UnknownObject(raw) => LazyView::UnknownObject(raw@),
        LazyValue::UnknownVector(raw) => LazyView::UnknownVector(raw@),
        LazyValue::Parsed(v) => LazyView::Parsed(value_view(v)),
    }
}

/// The model of a node.
pub open spec fn node_view(n: Node) -> NodeView
    decreases n,
{
    NodeView { value: value_view(n.value), trivia: trivia_view(n.trivia@), comma: n.comma }
}

/// The model of an object member.
pub open spec fn entry_view(e: ObjectEntry) -> EntryView
    decreases e,
{
    EntryView { key: e.key@, key_trivia: trivia_view(e.key_trivia@), value: node_view(e.value) }
}

impl View for Value {
    type V = ValueView;

    open spec fn view(&self) -> ValueView {
        value_view(*self)
    }
}

impl View for LazyValue {
    type V = LazyView;

    open spec fn view(&self) -> LazyView {
        lazy_view(*self)
    }
}

impl View for Node {
    type V = NodeView;

    open spec fn view(&self) -> NodeView {
        node_view(*self)
    }
}

impl View for ObjectEntry {
    type V = EntryView;

    open spec fn view(&self) -> EntryView {
        entry_view(*self)
    }
}

/// The models of a list of nodes.
pub open spec fn node_views(s: Seq<Node>) -> Seq<NodeView> {
    s.map_values(|n: Node| n@)
}

/// The models of a list of members.
pub open spec fn entry_views(s: Seq<ObjectEntry>) -> Seq<EntryView> {
    s.map_values(|e: ObjectEntry| e@)
}

pub proof fn lemma_array_value_view(items: Vec<Node>)
    ensures
        Value::Array(items)@ == ValueView::Array(node_views(items@)),
{
    let m = value_view(Value::Array(items));
    assert(m->Array_0 =~= node_views(items@));
}

pub proof fn lemma_object_value_view(members: Vec<ObjectEntry>)
    ensures
        Value::Object(members)@ == ValueView::Object(entry_views(members@)),
{
    let m = value_view(Value::Object(members));
    assert(m->Object_0 =~= entry_views(members@));
}

// ---------------------------------------------------------------------------
// Building documents
// ---------------------------------------------------------------------------

/// `s` with `pat` taken off its start as many times as it is there.
pub open spec fn strip_prefixes(s: Seq<char>, pat: Seq<char>) -> Seq<char>
    decreases s.len(),
{
    if 0 < pat.len() <= s.len() && s.take(pat.len() as int) == pat {
        strip_prefixes(s.skip(pat.len() as int), pat)
    } else {
        s
    }
}

/// `s` with `pat` taken off its end as many times as it is there.
pub open spec fn strip_suffixes(s: Seq<char>, pat: Seq<char>) -> Seq<char>
    decreases s.len(),
{
    if 0 < pat.len() <= s.len() && s.skip(s.len() - pat.len()) == pat {
        strip_suffixes(s.take(s.len() - pat.len()), pat)
    } else {
        s
    }
}

/// The characters `chars[from..]` start with `pat`.
fn starts_at(chars: &Vec<char>, from: usize, pat: &Vec<char>) -> (r: bool)
    requires
        from <= chars@.len(),
    ensures
        r == (pat@.len() <= chars@.len() - from && chars@.subrange(
            from as int,
            from + pat@.len(),
        ) == pat@),
{
    if pat.len() > chars.len() - from {
        return false;
    }
    let len = chars.len();
    let mut j: usize = 0;
    while j < pat.len()
        invariant
            len == chars@.len(),
            from <= chars@.len(),
            pat@.len() <= chars@.len() - from,
            j <= pat@.len(),
            forall|m: int| 0 <= m < j ==> chars@[from + m] == pat@[m],
        decreases pat.len() - j,
    {
        if chars[from + j] != pat[j] {
            proof {
                assert(chars@.subrange(from as int, from + pat@.len())[j as int] != pat@[j as int]);
            }
            return false;
        }
        j += 1;
    }
    proof {
        assert(chars@.subrange(from as int, from + pat@.len()) =~= pat@);
    }
    true
}

/// `text` with `pat` (not empty) taken off its start, and then off its end
/// when `tail` is given, as many times as it is there.
fn strip_markers(text: &str, head: &str, tail: Option<&str>) -> (r: String)
    requires
        head@.len() > 0,
        tail matches Some(t) ==> t@.len() > 0,
    ensures
        r@ == match tail {
            Some(t) => strip_suffixes(strip_prefixes(text@, head@), t@),
            None => strip_prefixes(text@, head@),
        },
{
    let chars = crate::text::chars_of(text);
    let h = crate::text::chars_of(head);
    let n = chars.len();
    let mut from: usize = 0;
    proof {
        assert(chars@.subrange(0, n as int) =~= chars@);
    }
    while starts_at(&chars, from, &h)
        invariant
            chars@ == text@,
            h@ == head@,
            h@.len() > 0,
            n == chars@.len(),
            from <= n,
            strip_prefixes(text@, head@) == strip_prefixes(chars@.subrange(from as int, n as int), head@),
        decreases n - from,
    {
        proof {
            let rest = chars@.subrange(from as int, n as int);
            assert(rest.take(h@.len() as int) =~= chars@.subrange(from as int, from + h@.len()));
            assert(rest.skip(h@.len() as int) =~= chars@.subrange(from + h@.len(), n as int));
        }
        from = from + h.len();
    }
    proof {
        let rest = chars@.subrange(from as int, n as int);
        if h@.len() <= rest.len() {
            assert(rest.take(h@.len() as int) =~= chars@.subrange(from as int, from + h@.len()));
        }
    }
    let mut to = n;
    match tail {
        None => {},
        Some(t) => {
            let tc = crate::text::chars_of(t);
            proof {
                assert(chars@.subrange(from as int, n as int).subrange(0, (n - from) as int)
                    =~= chars@.subrange(from as int, n as int));
            }
            while to - from >= tc.len() && starts_at(&chars, to - tc.len(), &tc)
                invariant
                    chars@ == text@,
                    tc@ == t@,
                    tc@.len() > 0,
                    n == chars@.len(),
                    from <= to <= n,
                    strip_suffixes(chars@.subrange(from as int, n as int), t@) == strip_suffixes(
                        chars@.subrange(from as int, to as int),
                        t@,
                    ),
                decreases to,
            {
                proof {
                    let rest = chars@.subrange(from as int, to as int);
                    assert(rest.skip(rest.len() - tc@.len()) =~= chars@.subrange(
                        to - tc@.len(),
                        to as int,
                    ));
                    assert(rest.take(rest.len() - tc@.len()) =~= chars@.subrange(
                        from as int,
                        to - tc@.len(),
                    ));
                }
                to = to - tc.len();
            }
            proof {
                let rest = chars@.subrange(from as int, to as int);
                if tc@.len() <= rest.len() {
                    assert(rest.skip(rest.len() - tc@.len()) =~= chars@.subrange(
                        to - tc@.len(),
                        to as int,
                    ));
                }
            }
        },
    }
    crate::text::string_from_chars(&chars, from, to)
}

impl Node {
    /// A node of `value` with no comments and no comma.
    pub fn new(value: Value) -> (n: Self)
        ensures
            n.value == value,
            n.trivia@.len() == 0,
            !n.comma,
    {
        Node { value, trivia: Vec::new(), comma: false }
    }

    /// A node of `value` with a line comment for each of `comments` (see
    /// [`Node::add_line_comment`]).
    pub fn new_with_comments(value: Value, comments: Vec<&str>) -> (n: Self)
        ensures
            n.value == value,
            !n.comma,
            n.trivia@.len() == comments@.len(),
            forall|i: int|
                0 <= i < comments@.len() ==> n.trivia@[i]@ == TriviaView::LineComment(
                    strip_prefixes(comments@[i]@, "//"@),
                ),
    {
        let mut node = Node::new(value);
        let mut i: usize = 0;
        while i < comments.len()
            invariant
                i <= comments@.len(),
                node.value == value,
                !node.comma,
                node.trivia@.len() == i,
                forall|j: int|
                    0 <= j < i ==> node.trivia@[j]@ == TriviaView::LineComment(
                        strip_prefixes(comments@[j]@, "//"@),
                    ),
            decreases comments.len() - i,
        {
            node.add_line_comment(comments[i]);
            i += 1;
        }
        node
    }

    /// Adds a line comment with the text of `comment`, leading `//` taken
    /// off.
    pub fn add_line_comment(&mut self, comment: &str)
        ensures
            final(self).value == old(self).value,
            final(self).comma == old(self).comma,
            final(self).trivia@ == old(self).trivia@.push(
                Trivia::LineComment(final(self).trivia@.last()->LineComment_0),
            ),
            final(self).trivia@.last()@ == TriviaView::LineComment(strip_prefixes(comment@, "//"@)),
    {
        proof {
            reveal_strlit("//");
        }
        let c = strip_markers(comment, "//", None);
        self.trivia.push(Trivia::LineComment(c));
    }

    /// Adds a block comment with the text of `comment`, leading `/*` and
    /// trailing `*/` taken off.
    pub fn add_block_comment(&mut self, comment: &str)
        ensures
            final(self).value == old(self).value,
            final(self).comma == old(self).comma,
            final(self).trivia@ == old(self).trivia@.push(
                Trivia::BlockComment(final(self).trivia@.last()->BlockComment_0),
            ),
            final(self).trivia@.last()@ == TriviaView::BlockComment(
                strip_suffixes(strip_prefixes(comment@, "/*"@), "*/"@),
            ),
    {
        proof {
            reveal_strlit("/*");
            reveal_strlit("*/");
        }
        let c = strip_markers(comment, "/*", Some("*/"));
        self.trivia.push(Trivia::BlockComment(c));
    }
}

impl ObjectEntry {
    /// A member `key: value` with no comments before the key.
    pub fn new(key: String, value: Node) -> (e: Self)
        ensures
            e.key == key,
            e.key_trivia@.len() == 0,
            e.value == value,
    {
        ObjectEntry { key, key_trivia: Vec::new(), value }
    }

    /// Adds a line comment before the key, leading `//` taken off.
    pub fn add_key_comment(&mut self, comment: &str)
        ensures
            final(self).key == old(self).key,
            final(self).value == old(self).value,
            final(self).key_trivia@ == old(self).key_trivia@.push(
                Trivia::LineComment(final(self).key_trivia@.last()->LineComment_0),
            ),
            final(self).key_trivia@.last()@ == TriviaView::LineComment(
                strip_prefixes(comment@, "//"@),
            ),
    {
        proof {
            reveal_strlit("//");
        }
        let c = strip_markers(comment, "//", None);
        self.key_trivia.push(Trivia::LineComment(c));
    }

    /// Adds a block comment before the key, leading `/*` and trailing `*/`
    /// taken off.
    pub fn add_key_block_comment(&mut self, comment: &str)
        ensures
            final(self).key == old(self).key,
            final(self).value == old(self).value,
            final(self).key_trivia@ == old(self).key_trivia@.push(
                Trivia::BlockComment(final(self).key_trivia@.last()->BlockComment_0),
            ),
            final(self).key_trivia@.last()@ == TriviaView::BlockComment(
                strip_suffixes(strip_prefixes(comment@, "/*"@), "*/"@),
            ),
    {
        proof {
            reveal_strlit("/*");
            reveal_strlit("*/");
        }
        let c = strip_markers(comment, "/*", Some("*/"));
        self.key_trivia.push(Trivia::BlockComment(c));
    }
}

impl Value {
    /// Appends `node` to an array, marking the element before it as followed
    /// by a comma; anything but an array is left alone and refused.
    pub fn push(&mut self, node: Node) -> (r: Result<(), String>)
        ensures
            match *old(self) {
                Value::Array(items) => {
                    &&& r is Ok
                    &&& *final(self) is Array
                    &&& (*final(self))->Array_0@.len() == items@.len() + 1
                    &&& (*final(self))->Array_0@.last() == node
                    &&& forall|i: int|
                        0 <= i < items@.len() ==> {
                            let (a, b) = (#[trigger] (*final(self))->Array_0@[i], items@[i]);
                            &&& a.value == b.value
                            &&& a.trivia == b.trivia
                            &&& a.comma == (b.comma || i == items@.len() - 1)
                        }
                },
                _ => *final(self) == *old(self) && (r matches Err(m) && m@ == "Not an array"@),
            },
    {
        match self {
            Value::Array(elements) => {
                let n = elements.len();
                if n > 0 {
                    let mut last = elements.pop().unwrap();
                    last.comma = true;
                    elements.push(last);
                }
                elements.push(node);
                Ok(())
            },
            _ => Err(crate::text::to_owned_string("Not an array")),
        }
    }
}

impl Value {
    /// Appends the member `key: node` to an object, marking the value before
    /// it as followed by a comma, and hands out the new member; anything but
    /// an object is left alone and refused.
    pub fn insert(&mut self, key: &str, node: Node) -> (r: Result<&mut ObjectEntry, String>)
        ensures
            match *old(self) {
                Value::Object(members) => {
                    &&& r is Ok
                    &&& r->Ok_0.key@ == key@
                    &&& r->Ok_0.key_trivia@.len() == 0
                    &&& r->Ok_0.value == node
                    &&& *final(self) is Object
                    &&& (*final(self))->Object_0@.len() == members@.len() + 1
                    &&& (*final(self))->Object_0@.last() == *final(r->Ok_0)
                    &&& forall|i: int|
                        0 <= i < members@.len() ==> {
                            let (a, b) = (#[trigger] (*final(self))->Object_0@[i], members@[i]);
                            &&& a.key == b.key
                            &&& a.key_trivia == b.key_trivia
                            &&& a.value.value == b.value.value
                            &&& a.value.trivia == b.value.trivia
                            &&& a.value.comma == (b.value.comma || i == members@.len() - 1)
                        }
                },
                _ => *final(self) == *old(self) && (r matches Err(m) && m@ == "Not an object"@),
            },
    {
        match self {
            Value::Object(members) => {
                let n = members.len();
                if n > 0 {
                    let mut last = members.pop().unwrap();
                    last.value.comma = true;
                    members.push(last);
                }
                members.push(ObjectEntry::new(crate::text::to_owned_string(key), node));
                let k = members.len() - 1;
                Ok(&mut members[k])
            },
            _ => Err(crate::text::to_owned_string("Not an object")),
        }
    }
}

/// A boolean value.
impl From<bool> for Value {
    fn from(b: bool) -> (v: Self) {
        Value::Bool(b)
    }
}

impl vstd::std_specs::convert::FromSpecImpl<bool> for Value {
    open spec fn obeys_from_spec() -> bool {
        true
    }

    open spec fn from_spec(b: bool) -> Self {
        Value::Bool(b)
    }
}

/// An integer value.
impl From<i32> for Value {
    fn from(n: i32) -> (v: Self) {
        Value::Number(Number::Int(n as i64))
    }
}

impl vstd::std_specs::convert::FromSpecImpl<i32> for Value {
    open spec fn obeys_from_spec() -> bool {
        true
    }

    open spec fn from_spec(n: i32) -> Self {
        Value::Number(Number::Int(n as i64))
    }
}

/// An integer number.
impl From<i32> for Number {
    fn from(n: i32) -> (v: Self) {
        Number::Int(n as i64)
    }
}

impl vstd::std_specs::convert::FromSpecImpl<i32> for Number {
    open spec fn obeys_from_spec() -> bool {
        true
    }

    open spec fn from_spec(n: i32) -> Self {
        Number::Int(n as i64)
    }
}

/// An integer number.
impl From<i64> for Number {
    fn from(n: i64) -> (v: Self) {
        Number::Int(n)
    }
}

impl vstd::std_specs::convert::FromSpecImpl<i64> for Number {
    open spec fn obeys_from_spec() -> bool {
        true
    }

    open spec fn from_spec(n: i64) -> Self {
        Number::Int(n)
    }
}

/// A string value.
impl From<LazyValue> for Value {
    fn from(l: LazyValue) -> (v: Self) {
        Value::Lazy(Box::new(l))
    }
}

impl vstd::std_specs::convert::FromSpecImpl<LazyValue> for Value {
    open spec fn obeys_from_spec() -> bool {
        true
    }

    open spec fn from_spec(l: LazyValue) -> Self {
        Value::Lazy(Box::new(l))
    }
}

impl From<String> for Value {
    fn from(s: String) -> (v: Self) {
        Value::String(s)
    }
}

impl vstd::std_specs::convert::FromSpecImpl<String> for Value {
    open spec fn obeys_from_spec() -> bool {
        true
    }

    open spec fn from_spec(s: String) -> Self {
        Value::String(s)
    }
}


// ---------------------------------------------------------------------------
// Copies
// ---------------------------------------------------------------------------

/// A copy of a list of comments.
pub(crate) fn copy_trivia_list(a: &Vec<Trivia>) -> (r: Vec<Trivia>)
    ensures
        trivia_view(r@) == trivia_view(a@),
{
    let mut out: Vec<Trivia> = Vec::new();
    let mut i: usize = 0;
    while i < a.len()
        invariant
            i <= a@.len(),
            out@.len() == i,
            forall|j: int| 0 <= j < i ==> #[trigger] out@[j]@ == a@[j]@,
        decreases a.len() - i,
    {
        let t = match &a[i] {
            Trivia::LineComment(c) => Trivia::LineComment(to_owned_string(c.as_str())),
            Trivia::BlockComment(c) => Trivia::BlockComment(to_owned_string(c.as_str())),
        };
        out.push(t);
        i += 1;
    }
    proof {
        assert(trivia_view(out@) =~= trivia_view(a@));
    }
    out
}

/// A copy of a value, the comments inside included.
pub(crate) fn copy_value(a: &Value) -> (r: Value)
    ensures
        r@ == a@,
    decreases a,
{
    match a {
        Value::Null => Value::Null,
        Value::Bool(x) => Value::Bool(*x),
        Value::Number(Number::Int(n)) => Value::Number(Number::Int(*n)),
        Value::Number(Number::Float(t)) => Value::Number(
            Number::Float(to_owned_string(t.as_str())),
        ),
        Value::String(x) => Value::String(to_owned_string(x.as_str())),
        Value::Array(xs) => {
            proof {
                lemma_array_value_view(*xs);
            }
            let mut out: Vec<Node> = Vec::new();
            let mut i: usize = 0;
            while i < xs.len()
                invariant
                    *a == Value::Array(*xs),
                    a@ == ValueView::Array(node_views(xs@)),
                    i <= xs@.len(),
                    out@.len() == i,
                    forall|j: int| 0 <= j < i ==> #[trigger] out@[j]@ == xs@[j]@,
                decreases xs.len() - i,
            {
                let n = Node {
                    value: copy_value(&xs[i].value),
                    trivia: copy_trivia_list(&xs[i].trivia),
                    comma: xs[i].comma,
                };
                out.push(n);
                i += 1;
            }
            proof {
                lemma_array_value_view(out);
                assert(node_views(out@) =~= node_views(xs@));
            }
            Value::Array(out)
        },
        Value::Object(xs) => {
            proof {
                lemma_object_value_view(*xs);
            }
            let mut out: Vec<ObjectEntry> = Vec::new();
            let mut i: usize = 0;
            while i < xs.len()
                invariant
                    *a == Value::Object(*xs),
                    a@ == ValueView::Object(entry_views(xs@)),
                    i <= xs@.len(),
                    out@.len() == i,
                    forall|j: int| 0 <= j < i ==> #[trigger] out@[j]@ == xs@[j]@,
                decreases xs.len() - i,
            {
                let e = ObjectEntry {
                    key: to_owned_string(xs[i].key.as_str()),
                    key_trivia: copy_trivia_list(&xs[i].key_trivia),
                    value: Node {
                        value: copy_value(&xs[i].value.value),
                        trivia: copy_trivia_list(&xs[i].value.trivia),
                        comma: xs[i].value.comma,
                    },
                };
                out.push(e);
                i += 1;
            }
            proof {
                lemma_object_value_view(out);
                assert(entry_views(out@) =~= entry_views(xs@));
            }
            Value::Object(out)
        },
        Value::Lazy(l) => {
            let c = match &**l {
                LazyValue::Unknown(raw) => LazyValue::Unknown(to_owned_string(raw.as_str())),
                LazyValue::UnknownObject(raw) => LazyValue::UnknownObject(
                    to_owned_string(raw.as_str()),
                ),
                LazyValue::UnknownVector(raw) => LazyValue::UnknownVector(
                    to_owned_string(raw.as_str()),
                ),
                LazyValue::Parsed(v) => LazyValue::Parsed(copy_value(v)),
            };
            Value::Lazy(Box::new(c))
        },
    }
}

impl Clone for Number {
    fn clone(&self) -> (r: Self)
        ensures
            number_view(r) == number_view(*self),
    {
        match self {
            Number::Int(n) => Number::Int(*n),
            Number::Float(t) => Number::Float(to_owned_string(t.as_str())),
        }
    }
}

impl Clone for Value {
    fn clone(&self) -> (r: Self)
        ensures
            r@ == self@,
    {
        copy_value(self)
    }
}

impl Clone for LazyValue {
    fn clone(&self) -> (r: Self)
        ensures
            r@ == self@,
    {
        match self {
            LazyValue::Unknown(raw) => LazyValue::Unknown(to_owned_string(raw.as_str())),
            LazyValue::UnknownObject(raw) => LazyValue::UnknownObject(to_owned_string(raw.as_str())),
            LazyValue::UnknownVector(raw) => LazyValue::UnknownVector(to_owned_string(raw.as_str())),
            LazyValue::Parsed(v) => LazyValue::Parsed(copy_value(v)),
        }
    }
}

impl Clone for Node {
    fn clone(&self) -> (r: Self)
        ensures
            r@ == self@,
    {
        Node { value: copy_value(&self.value), trivia: copy_trivia_list(&self.trivia), comma: self.comma }
    }
}

impl Clone for ObjectEntry {
    fn clone(&self) -> (r: Self)
        ensures
            r@ == self@,
    {
        ObjectEntry {
            key: to_owned_string(self.key.as_str()),
            key_trivia: copy_trivia_list(&self.key_trivia),
            value: Node {
                value: copy_value(&self.value.value),
                trivia: copy_trivia_list(&self.value.trivia),
                comma: self.value.comma,
            },
        }
    }
}

} // verus!
