//! The parser that builds owned [`Node`] trees: strings are decoded and
//! numbers checked while parsing, members keep their source order. The
//! grammar it accepts is written as spec functions over the input bytes.

use vstd::prelude::*;
use vstd::string::StringSliceAdditionalSpecFns;
use vstd::utf8::*;
use crate::ast::{
    EntryView, Node, NodeView, Number, NumberView, ObjectEntry, Trivia, TriviaView, Value,
    ValueView, entry_views, lemma_array_value_view, lemma_object_value_view, node_views,
    trivia_view,
};
use crate::error::Error;
use crate::lazy_parser::{depth_room, has_keyword, kw_false, kw_null, kw_true};
use crate::pointer::member_index;
use crate::text::str_debug_text;
use crate::lazy_val::{hex4_value, hex_digit, pair_value, simple_escape};
use crate::parser_core::{
    bom_end, fail_message, line_col,
    FailKind, MAX_DEPTH, ParseFail, ParserCore, fail_at, first_control, integer_lexeme_i64,
    is_digit, is_frac_or_exp_byte, number_end, skip_trivia, text_of,
};
use crate::simd::{in_class, lemma_first_match, string_end_from, ByteClass};
use crate::serializer::{escape_char, escaped, hex_upper};
use crate::text;

verus! {

broadcast use vstd::string::group_string_axioms;

// ---------------------------------------------------------------------------
// Strings
// ---------------------------------------------------------------------------

/// The character that starts at byte `p`.
pub open spec fn char_at(b: Seq<u8>, p: int) -> char {
    decode_first_scalar(b.subrange(p, b.len() as int)) as char
}

/// The four hexadecimal digits of a `\u` escape from `i` on: their value, or
/// the failure at the end of the input or at the first digit that is not
/// one.
pub open spec fn hex_at(b: Seq<u8>, i: int) -> Result<int, ParseFail> {
    if i + 4 > b.len() {
        Err(fail_at(FailKind::HexEof, b.len() as int))
    } else if hex_digit(b[i]) is None {
        Err(fail_at(FailKind::HexDigit, i))
    } else if hex_digit(b[i + 1]) is None {
        Err(fail_at(FailKind::HexDigit, i + 1))
    } else if hex_digit(b[i + 2]) is None {
        Err(fail_at(FailKind::HexDigit, i + 2))
    } else if hex_digit(b[i + 3]) is None {
        Err(fail_at(FailKind::HexDigit, i + 3))
    } else {
        Ok(hex4_value(b.subrange(i, i + 4))->0)
    }
}

/// The escape whose backslash is at `pos`: its character and the offset
/// after it. A high surrogate must be followed by a `\u` escape of a low
/// one.
pub open spec fn escape_at(b: Seq<u8>, pos: int) -> Result<(char, int), ParseFail> {
    if pos + 1 >= b.len() {
        Err(fail_at(FailKind::EofAfterBackslash, pos + 1))
    } else if simple_escape(b[pos + 1]) is Some {
        Ok((simple_escape(b[pos + 1])->0, pos + 2))
    } else if b[pos + 1] != 0x75 {
        Err(fail_at(FailKind::BadEscape, pos + 1))
    } else {
        match hex_at(b, pos + 2) {
            Err(f) => Err(f),
            Ok(cp) => if 0xD800 <= cp <= 0xDBFF {
                let q = pos + 6;
                if q + 2 <= b.len() && b[q] == 0x5c && b[q + 1] == 0x75 {
                    match hex_at(b, q + 2) {
                        Err(f) => Err(f),
                        Ok(low) => if 0xDC00 <= low <= 0xDFFF {
                            Ok((pair_value(cp, low) as char, q + 6))
                        } else {
                            Err(fail_at(FailKind::BadLowSurrogate, q + 5))
                        },
                    }
                } else {
                    Err(fail_at(FailKind::MissingLowSurrogate, pos + 5))
                }
            } else if 0xDC00 <= cp <= 0xDFFF {
                Err(fail_at(FailKind::LoneLowSurrogate, pos + 5))
            } else {
                Ok((cp as char, pos + 6))
            },
        }
    }
}

pub proof fn lemma_escape_at(b: Seq<u8>, pos: int)
    requires
        0 <= pos,
    ensures
        escape_at(b, pos) matches Ok((_, next)) ==> pos + 2 <= next <= b.len() && b[next - 1]
            < 0x80,
{
    if let Ok((_, next)) = escape_at(b, pos) {
        if next == pos + 6 {
            assert(hex_digit(b[pos + 5]) is Some);
        } else if next > pos + 6 {
            assert(hex_digit(b[pos + 11]) is Some);
        }
    }
}

/// The rest of a string from `pos` on, `acc` being the text decoded so far:
/// the whole text and the offset after the closing quote. Escapes are
/// decoded as they come (see [`escape_at`]); other control characters are
/// refused.
pub open spec fn string_rest(b: Seq<u8>, pos: int, acc: Seq<char>) -> Result<
    (Seq<char>, int),
    ParseFail,
>
    decreases b.len() - pos,
{
    if pos < 0 || pos >= b.len() {
        Err(fail_at(FailKind::UnterminatedStringAtEnd, b.len() as int))
    } else if b[pos] == 0x22 {
        Ok((acc, pos + 1))
    } else if b[pos] == 0x5c {
        proof {
            lemma_escape_at(b, pos);
        }
        match escape_at(b, pos) {
            Err(f) => Err(f),
            Ok((c, next)) => string_rest(b, next, acc.push(c)),
        }
    } else {
        let rest = b.subrange(pos, b.len() as int);
        let ch = char_at(b, pos);
        proof {
            assert(1 <= length_of_first_scalar(rest) <= 4);
        }
        let next = pos + length_of_first_scalar(rest);
        if (ch as u32) <= 0x1f {
            Err(fail_at(FailKind::ControlChar, pos))
        } else if next > b.len() {
            // Only for bytes that are not UTF-8, which no `&str` holds.
            Err(fail_at(FailKind::UnterminatedStringAtEnd, b.len() as int))
        } else {
            string_rest(b, next, acc.push(ch))
        }
    }
}

/// A string whose opening quote is at `p`: its decoded text and the offset
/// after its closing quote. Up to the first `"` or `\` the text is taken as
/// it is, refusing control characters only when a `"` comes first.
pub open spec fn parse_string(b: Seq<u8>, p: int) -> Result<(Seq<char>, int), ParseFail> {
    let start = p + 1;
    let end = string_end_from(b, start);
    if end < b.len() && b[end] == 0x22 {
        if first_control(b, start, end) != -1 {
            Err(fail_at(FailKind::ControlChar, first_control(b, start, end)))
        } else {
            Ok((text_of(b, start, end), end + 1))
        }
    } else {
        string_rest(b, end, text_of(b, start, end))
    }
}

// ---------------------------------------------------------------------------
// Numbers
// ---------------------------------------------------------------------------

/// Where a run of decimal digits starting at `i` ends.
pub open spec fn digits_end(s: Seq<u8>, i: int) -> int
    decreases s.len() - i,
{
    if 0 <= i < s.len() && is_digit(s[i]) {
        digits_end(s, i + 1)
    } else {
        i
    }
}

/// An exponent's digits from `i` on: an optional sign, then at least one
/// digit, then the end.
pub open spec fn exponent_ok(s: Seq<u8>, i: int) -> bool {
    let j = if i < s.len() && (s[i] == 0x2b || s[i] == 0x2d) {
        i + 1
    } else {
        i
    };
    digits_end(s, j) > j && digits_end(s, j) == s.len()
}

/// The JSON number grammar (RFC 8259): an optional `-`, an integer part
/// that is `0` or starts with another digit, an optional `.` with at least
/// one digit, then optionally `e` or `E` and an exponent.
pub open spec fn json_number(s: Seq<u8>) -> bool {
    let a = if s.len() > 0 && s[0] == 0x2d {
        1int
    } else {
        0int
    };
    let i = digits_end(s, a);
    let dot = i < s.len() && s[i] == 0x2e;
    let e = if dot {
        digits_end(s, i + 1)
    } else {
        i
    };
    &&& i > a
    &&& (s[a] != 0x30 || i == a + 1)
    &&& (!dot || e > i + 1)
    &&& (e == s.len() || ((s[e] == 0x65 || s[e] == 0x45) && exponent_ok(s, e + 1)))
}

/// A number whose first byte is at `p`: refused unless its lexeme follows
/// the JSON number grammar; an integer that fits in an `i64` when the
/// lexeme has no fraction or exponent, else the lexeme itself.
pub open spec fn parse_number(b: Seq<u8>, p: int) -> Result<(NumberView, int), ParseFail> {
    let q = number_end(b, p + 1);
    let lex = b.subrange(p, q);
    let frac = exists|i: int| p < i < q && is_frac_or_exp_byte(#[trigger] b[i]);
    if !json_number(lex) {
        Err(fail_at(FailKind::InvalidNumber, p))
    } else if !frac && integer_lexeme_i64(lex) is Some {
        Ok((NumberView::Int(integer_lexeme_i64(lex)->0), q))
    } else {
        Ok((NumberView::Float(text_of(b, p, q)), q))
    }
}

// ---------------------------------------------------------------------------
// Values
// ---------------------------------------------------------------------------

/// `n` with `extra` comments after its own.
pub open spec fn with_comments(n: NodeView, extra: Seq<TriviaView>) -> NodeView {
    NodeView { value: n.value, trivia: n.trivia + extra, comma: n.comma }
}

/// A node of `value` with the comments `trivia` and no comma.
pub open spec fn plain_node(value: ValueView, trivia: Seq<TriviaView>) -> NodeView {
    NodeView { value, trivia, comma: false }
}

/// A scalar whose first byte is at `p`, with the comments before it.
pub open spec fn owned_scalar(b: Seq<u8>, p: int, trivia: Seq<TriviaView>) -> Result<
    (NodeView, int),
    ParseFail,
> {
    let c = b[p];
    if c == 0x22 {
        match parse_string(b, p) {
            Err(f) => Err(f),
            Ok((s, q)) => Ok((plain_node(ValueView::String(s), trivia), q)),
        }
    } else if is_digit(c) || c == 0x2d {
        match parse_number(b, p) {
            Err(f) => Err(f),
            Ok((n, q)) => Ok((plain_node(ValueView::Number(n), trivia), q)),
        }
    } else if c == 0x74 {
        if has_keyword(b, p, kw_true()) {
            Ok((plain_node(ValueView::Bool(true), trivia), p + 4))
        } else {
            Err(fail_at(FailKind::UnexpectedIdentifier, p))
        }
    } else if c == 0x66 {
        if has_keyword(b, p, kw_false()) {
            Ok((plain_node(ValueView::Bool(false), trivia), p + 5))
        } else {
            Err(fail_at(FailKind::UnexpectedIdentifier, p))
        }
    } else if c == 0x6e {
        if has_keyword(b, p, kw_null()) {
            Ok((plain_node(ValueView::Null, trivia), p + 4))
        } else {
            Err(fail_at(FailKind::UnexpectedIdentifier, p))
        }
    } else {
        Err(fail_at(FailKind::UnexpectedCharacter(char_at(b, p)), p))
    }
}

/// A value whose first byte is at `p` (comments already skipped), with
/// `pending` the comments before it: the node, where the input continues,
/// and the comments read but not attached.
pub open spec fn value_at(b: Seq<u8>, p: int, pending: Seq<TriviaView>, depth: int, strict: bool) -> Result<
    (NodeView, int, Seq<TriviaView>),
    ParseFail,
>
    decreases depth_room(depth), 0int, 0int,
{
    if p < 0 || p >= b.len() {
        Err(fail_at(FailKind::EofBeforeValue, p))
    } else if b[p] == 0x7b || b[p] == 0x5b {
        if depth >= MAX_DEPTH {
            Err(fail_at(FailKind::DepthExceeded, p))
        } else {
            let inner = if b[p] == 0x7b {
                members_from(b, p + 1, seq![], depth + 1, seq![], strict)
            } else {
                elements_from(b, p + 1, seq![], depth + 1, seq![], strict)
            };
            match inner {
                Err(f) => Err(f),
                Ok((v, q, rest)) => Ok((plain_node(v, pending), q, rest)),
            }
        }
    } else {
        match owned_scalar(b, p, pending) {
            Err(f) => Err(f),
            Ok((n, q)) => Ok((n, q, seq![])),
        }
    }
}

/// A value from `pos` on: comments first, then the value (see
/// [`value_at`]).
pub open spec fn value_from(b: Seq<u8>, pos: int, pending: Seq<TriviaView>, depth: int, strict: bool) -> Result<
    (NodeView, int, Seq<TriviaView>),
    ParseFail,
>
    decreases depth_room(depth), 0int, 1int,
{
    match skip_trivia(b, pos, pending) {
        Err(f) => Err(f),
        Ok((p, pend)) => value_at(b, p, pend, depth, strict),
    }
}

/// Where the input continues after an array element and the comments after
/// it: past a `,`, at a `]`, or at the end; a failure at any other
/// character.
pub open spec fn after_element(b: Seq<u8>, r: int, close: u8, kind: FailKind) -> Result<
    int,
    ParseFail,
> {
    if 0 <= r < b.len() {
        if b[r] == 0x2c {
            Ok(r + 1)
        } else if b[r] == close {
            Ok(r)
        } else {
            Err(fail_at(kind, r))
        }
    } else {
        Ok(r)
    }
}

/// The rest of an array from `pos` on, after the elements `items`: at `]`
/// the comments read since the last element attach to it (they stay
/// pending in an empty array).
pub open spec fn elements_from(
    b: Seq<u8>,
    pos: int,
    pending: Seq<TriviaView>,
    depth: int,
    items: Seq<NodeView>,
    strict: bool,
) -> Result<(ValueView, int, Seq<TriviaView>), ParseFail>
    decreases depth_room(depth), 1int, b.len() - pos,
{
    match skip_trivia(b, pos, pending) {
        Err(f) => Err(f),
        Ok((p, pend)) => {
            if p < 0 || p >= b.len() {
                Err(fail_at(FailKind::EofInArrayValue, p))
            } else if b[p] == 0x5d {
                if items.len() > 0 {
                    let last = items.len() - 1;
                    Ok(
                        (
                            ValueView::Array(items.update(last, with_comments(items[last], pend))),
                            p + 1,
                            seq![],
                        ),
                    )
                } else {
                    Ok((ValueView::Array(items), p + 1, pend))
                }
            } else {
                match value_at(b, p, pend, depth, strict) {
                    Err(f) => Err(f),
                    Ok((n, q, pend2)) => match skip_trivia(b, q, pend2) {
                        Err(f) => Err(f),
                        Ok((r, pend3)) => match after_element(
                            b,
                            r,
                            0x5d,
                            FailKind::ArrayComma(char_at(b, r)),
                        ) {
                            Err(f) => Err(f),
                            Ok(next) => if next <= pos || next > b.len() {
                                Err(fail_at(FailKind::Stalled, r))
                            } else {
                                elements_from(b, next, pend3, depth, items.push(n), strict)
                            },
                        },
                    },
                }
            }
        },
    }
}

/// A member whose key's opening quote is at `p`, with `key_trivia` the
/// comments before the key: the member, then, past the comments after its
/// value, where the input continues and the comments read there.
pub open spec fn member_at(b: Seq<u8>, p: int, key_trivia: Seq<TriviaView>, depth: int, strict: bool) -> Result<
    (EntryView, int, Seq<TriviaView>),
    ParseFail,
>
    decreases depth_room(depth), 0int, 2int,
{
    match parse_string(b, p) {
        Err(f) => Err(f),
        Ok((key, k)) => match skip_trivia(b, k, seq![]) {
            Err(f) => Err(f),
            Ok((c, pend)) => {
                if 0 <= c < b.len() && b[c] == 0x3a {
                    match value_from(b, c + 1, pend, depth, strict) {
                        Err(f) => Err(f),
                        Ok((v, q, pend2)) => match skip_trivia(b, q, pend2) {
                            Err(f) => Err(f),
                            Ok((r, pend3)) => Ok((EntryView { key, key_trivia, value: v }, r, pend3)),
                        },
                    }
                } else {
                    Err(fail_at(FailKind::ColonAfterKey, c))
                }
            },
        },
    }
}

/// The rest of an object from `pos` on, after the members `entries` (kept
/// in source order). When `strict`, a member whose key an earlier member
/// has is refused at the opening quote of its key.
pub open spec fn members_from(
    b: Seq<u8>,
    pos: int,
    pending: Seq<TriviaView>,
    depth: int,
    entries: Seq<EntryView>,
    strict: bool,
) -> Result<(ValueView, int, Seq<TriviaView>), ParseFail>
    decreases depth_room(depth), 1int, b.len() - pos,
{
    match skip_trivia(b, pos, pending) {
        Err(f) => Err(f),
        Ok((p, pend)) => {
            if p < 0 || p >= b.len() {
                Err(fail_at(FailKind::EofInObjectValue, p))
            } else if b[p] == 0x7d {
                if entries.len() > 0 {
                    let last = entries.len() - 1;
                    let e = entries[last];
                    Ok(
                        (
                            ValueView::Object(
                                entries.update(
                                    last,
                                    EntryView {
                                        key: e.key,
                                        key_trivia: e.key_trivia,
                                        value: with_comments(e.value, pend),
                                    },
                                ),
                            ),
                            p + 1,
                            seq![],
                        ),
                    )
                } else {
                    Ok((ValueView::Object(entries), p + 1, pend))
                }
            } else if b[p] != 0x22 {
                Err(fail_at(FailKind::StringKey, b.len() as int))
            } else {
                match member_at(b, p, pend, depth, strict) {
                    Err(f) => Err(f),
                    Ok((entry, r, pend2)) => if strict && member_index(entries, entry.key) >= 0 {
                        Err(fail_at(FailKind::DuplicateKey, p))
                    } else {
                        match after_element(b, r, 0x7d, FailKind::ObjectComma(char_at(b, r))) {
                            Err(f) => Err(f),
                            Ok(next) => if next <= pos || next > b.len() {
                                Err(fail_at(FailKind::Stalled, r))
                            } else {
                                members_from(b, next, pend2, depth, entries.push(entry), strict)
                            },
                        }
                    },
                }
            }
        },
    }
}

/// A whole document as [`from_str`] reads it: repeated keys are refused
/// (see [`owned_document_with`]).
pub open spec fn owned_document(b: Seq<u8>) -> Result<NodeView, ParseFail> {
    owned_document_with(b, true)
}

/// A whole document: one value, then only whitespace and comments, which
/// attach to the value after its own. When `strict`, a member whose key an
/// earlier member of its object has is refused; otherwise it is kept.
pub open spec fn owned_document_with(b: Seq<u8>, strict: bool) -> Result<NodeView, ParseFail> {
    match value_from(b, bom_end(b), seq![], 0, strict) {
        Err(f) => Err(f),
        Ok((root, q, pend)) => match skip_trivia(b, q, pend) {
            Err(f) => Err(f),
            Ok((r, pend2)) => if r < b.len() {
                Err(fail_at(FailKind::TrailingCharacter(char_at(b, r)), r))
            } else {
                Ok(with_comments(root, pend2))
            },
        },
    }
}

/// The message of a failure of this parser: for a repeated key,
/// `duplicate key` and the key as Rust's `Debug` writes it; otherwise the
/// message of its kind.
pub open spec fn owned_message(b: Seq<u8>, f: ParseFail) -> Seq<char> {
    if f.kind is DuplicateKey && 0 <= f.offset < b.len() && b[f.offset as int] == 0x22
        && parse_string(b, f.offset as int) is Ok {
        "duplicate key "@ + str_debug_text(parse_string(b, f.offset as int)->Ok_0.0)
    } else {
        fail_message(f.kind)
    }
}

/// `e` reports `f`: a parse error at the line and column of its offset,
/// with its message (see [`owned_message`]).
pub open spec fn owned_reports(b: Seq<u8>, f: ParseFail, e: Error) -> bool {
    e matches Error::Parse { line, col, msg } && line == line_col(b, f.offset as int).0 && col
        == line_col(b, f.offset as int).1 && msg@ == owned_message(b, f)
}

} // verus!

verus! {

/// Parses owned trees with a [`ParserCore`] cursor.
pub struct Parser<'a> {
    core: ParserCore<'a>,
}

impl<'a> Parser<'a> {
    /// The cursor is well formed and at a character boundary.
    pub closed spec fn ready(&self) -> bool {
        self.core.wf() && self.core.at_boundary()
    }

    /// Nothing has been read yet.
    pub closed spec fn at_start(&self) -> bool {
        self.core.pos == 0 && self.core.pending_trivia@.len() == 0
    }

    /// The bytes being parsed.
    pub closed spec fn input_bytes(&self) -> Seq<u8> {
        self.core.bytes@
    }

    /// A parser at the start of `input`.
    pub fn new(input: &'a str) -> (p: Self)
        requires
            input.spec_bytes().len() <= isize::MAX,
        ensures
            p.ready(),
            p.input_bytes() == input.spec_bytes(),
            p.at_start(),
    {
        Parser { core: ParserCore::new(input) }
    }

    /// Reads a string whose opening quote is at the position (see
    /// [`parse_string`]).
    fn parse_string(&mut self) -> (r: Result<String, ParseFail>)
        requires
            old(self).ready(),
            old(self).core.pos < old(self).core.bytes@.len(),
            old(self).core.bytes@[old(self).core.pos as int] == 0x22,
        ensures
            final(self).core.input == old(self).core.input,
            final(self).core.bytes == old(self).core.bytes,
            final(self).core.pending_trivia == old(self).core.pending_trivia,
            match parse_string(old(self).core.bytes@, old(self).core.pos as int) {
                Ok((t, q)) => r matches Ok(s) && s@ == t && final(self).core.pos == q
                    && final(self).ready() && old(self).core.pos < q,
                Err(f) => r == Err::<String, ParseFail>(f),
            },
    {
        let ghost b = self.core.bytes@;
        let start = self.core.pos + 1;
        proof {
            text::lemma_str_bytes(self.core.input);
            text::lemma_after_ascii(b, start as int);
            crate::simd::lemma_first_match(b, start as int, crate::simd::ByteClass::StringStop);
        }
        let (end, saw_backslash) = self.core.find_string_terminator(start);
        if !saw_backslash && end < self.core.bytes.len() {
            match self.core.validate_no_control_chars(start, end) {
                Ok(()) => {},
                Err(f) => {
                    return Err(f);
                },
            }
            let piece = text::substr(self.core.input, start, end);
            let s = text::to_owned_string(piece);
            self.core.pos = end + 1;
            proof {
                text::lemma_after_ascii(b, end + 1);
            }
            return Ok(s);
        }
        self.core.pos = end;
        let r = self.core.parse_string_slow(start);
        proof {
            lemma_string_rest_advances(b, end as int, text_of(b, start as int, end as int));
        }
        r
    }

    /// Reads a number whose first byte is at the position (see
    /// [`parse_number`]).
    fn parse_number(&mut self) -> (r: Result<Number, ParseFail>)
        requires
            old(self).ready(),
            old(self).core.pos < old(self).core.bytes@.len(),
            is_digit(old(self).core.bytes@[old(self).core.pos as int]) || old(self).core.bytes@[old(
                self,
            ).core.pos as int] == 0x2d,
        ensures
            final(self).core.input == old(self).core.input,
            final(self).core.bytes == old(self).core.bytes,
            final(self).core.pending_trivia == old(self).core.pending_trivia,
            match parse_number(old(self).core.bytes@, old(self).core.pos as int) {
                Ok((m, q)) => r matches Ok(num) && crate::ast::number_view(num) == m
                    && final(self).core.pos == q && final(self).ready() && old(self).core.pos < q,
                Err(f) => r == Err::<Number, ParseFail>(f),
            },
    {
        let ghost b = self.core.bytes@;
        let content_start = self.core.pos;
        let (lex, has_frac_or_exp) = self.core.scan_number_lexeme();
        proof {
            crate::parser_core::lemma_number_end(b, content_start + 1);
            text::lemma_str_bytes(lex);
        }
        if !json_number_ok(lex.as_bytes()) {
            return Err(ParseFail { kind: FailKind::InvalidNumber, offset: content_start });
        }
        if !has_frac_or_exp {
            if let Some(n) = crate::parser_core::fast_parse_int(lex.as_bytes()) {
                return Ok(Number::Int(n));
            }
        }
        Ok(Number::Float(text::to_owned_string(lex)))
    }
}

/// String reading shared by the parsers that build owned values.
impl<'a> ParserCore<'a> {
    /// The character that starts at byte `p`.
    pub(crate) fn char_at(&self, p: usize) -> (c: char)
        requires
            self.wf(),
            p < self.bytes@.len(),
            text::boundary_at(self.bytes@, p as int),
        ensures
            c == char_at(self.bytes@, p as int),
    {
        proof {
            text::lemma_str_bytes(self.input);
            text::lemma_next_boundary(self.bytes@, p as int);
        }
        let (v, _) = text::decode_scalar_at(self.bytes, p);
        match text::char_from_u32(v) {
            Some(c) => c,
            None => {
                proof {
                    assert(false);
                }
                ' '
            },
        }
    }

    /// Reads the escape whose backslash is at the position (see
    /// [`escape_at`]), leaving the position after it.
    pub(crate) fn parse_escape(&mut self) -> (r: Result<char, ParseFail>)
        requires
            old(self).wf(),
            old(self).pos < old(self).bytes@.len(),
        ensures
            final(self).input == old(self).input,
            final(self).bytes == old(self).bytes,
            final(self).pending_trivia == old(self).pending_trivia,
            match escape_at(old(self).bytes@, old(self).pos as int) {
                Ok((c, next)) => r == Ok::<char, ParseFail>(c) && final(self).pos == next,
                Err(f) => r == Err::<char, ParseFail>(f),
            },
    {
        let n = self.bytes.len();
        let pos = self.pos;
        if n - pos < 2 {
            return Err(ParseFail { kind: FailKind::EofAfterBackslash, offset: pos + 1 });
        }
        let e = self.bytes[pos + 1];
        let simple: Option<char> = if e == 0x22 {
            Some('"')
        } else if e == 0x5c {
            Some('\\')
        } else if e == 0x2f {
            Some('/')
        } else if e == 0x62 {
            Some('\x08')
        } else if e == 0x66 {
            Some('\x0c')
        } else if e == 0x6e {
            Some('\n')
        } else if e == 0x72 {
            Some('\r')
        } else if e == 0x74 {
            Some('\t')
        } else {
            None
        };
        assert(simple == simple_escape(e));
        if let Some(c) = simple {
            self.pos = pos + 2;
            return Ok(c);
        }
        if e != 0x75 {
            return Err(ParseFail { kind: FailKind::BadEscape, offset: pos + 1 });
        }
        self.pos = pos + 2;
        let first = match self.parse_hex4_escape() {
            Ok(v) => v,
            Err(f) => {
                return Err(f);
            },
        };
        if 0xD800 <= first && first <= 0xDBFF {
            let q = self.pos;
            if n - q >= 2 && self.bytes[q] == 0x5c && self.bytes[q + 1] == 0x75 {
                self.pos = q + 2;
                let second = match self.parse_hex4_escape() {
                    Ok(v) => v,
                    Err(f) => {
                        return Err(f);
                    },
                };
                if 0xDC00 <= second && second <= 0xDFFF {
                    let value: u32 = 0x10000 + ((first - 0xD800) as u32) * 1024 + ((second
                        - 0xDC00) as u32);
                    match text::char_from_u32(value) {
                        Some(c) => Ok(c),
                        None => {
                            proof {
                                assert(false);
                            }
                            Err(ParseFail { kind: FailKind::BadLowSurrogate, offset: q + 5 })
                        },
                    }
                } else {
                    Err(ParseFail { kind: FailKind::BadLowSurrogate, offset: q + 5 })
                }
            } else {
                Err(ParseFail { kind: FailKind::MissingLowSurrogate, offset: pos + 5 })
            }
        } else if 0xDC00 <= first && first <= 0xDFFF {
            Err(ParseFail { kind: FailKind::LoneLowSurrogate, offset: pos + 5 })
        } else {
            match text::char_from_u32(first as u32) {
                Some(c) => Ok(c),
                None => {
                    proof {
                        assert(false);
                    }
                    Err(ParseFail { kind: FailKind::LoneLowSurrogate, offset: pos + 5 })
                },
            }
        }
    }

    /// Reads the rest of a string from the position on, `start` being where
    /// its contents begin (see [`string_rest`]).
    pub(crate) fn parse_string_slow(&mut self, start: usize) -> (r: Result<String, ParseFail>)
        requires
            old(self).wf(),
            old(self).at_boundary(),
            start <= old(self).pos <= old(self).bytes@.len(),
            text::boundary_at(old(self).bytes@, start as int),
        ensures
            final(self).input == old(self).input,
            final(self).bytes == old(self).bytes,
            final(self).pending_trivia == old(self).pending_trivia,
            match string_rest(
                old(self).bytes@,
                old(self).pos as int,
                text_of(old(self).bytes@, start as int, old(self).pos as int),
            ) {
                Ok((t, q)) => r matches Ok(s) && s@ == t && final(self).pos == q
                    && final(self).wf() && final(self).at_boundary(),
                Err(f) => r == Err::<String, ParseFail>(f),
            },
    {
        let ghost b = self.bytes@;
        let ghost goal = string_rest(b, self.pos as int, text_of(b, start as int, self.pos as int));
        proof {
            text::lemma_str_bytes(self.input);
        }
        let head = text::substr(self.input, start, self.pos);
        let mut s = text::to_owned_string(head);
        let n = self.bytes.len();
        while self.pos < n
            invariant
                self.wf(),
                self.at_boundary(),
                n == b.len(),
                b == self.bytes@,
                vstd::utf8::valid_utf8(b),
                self.input == old(self).input,
                self.bytes == old(self).bytes,
                self.pending_trivia == old(self).pending_trivia,
                goal == string_rest(
                    old(self).bytes@,
                    old(self).pos as int,
                    text_of(old(self).bytes@, start as int, old(self).pos as int),
                ),
                goal == string_rest(b, self.pos as int, s@),
            decreases n - self.pos,
        {
            let pos = self.pos;
            let c = self.bytes[pos];
            if c == 0x22 {
                self.pos = pos + 1;
                proof {
                    text::lemma_after_ascii(b, pos + 1);
                }
                return Ok(s);
            }
            if c == 0x5c {
                proof {
                    lemma_escape_at(b, pos as int);
                }
                let ch = match self.parse_escape() {
                    Ok(ch) => ch,
                    Err(f) => {
                        return Err(f);
                    },
                };
                text::push_char(&mut s, ch);
                proof {
                    text::lemma_after_ascii(b, self.pos as int);
                }
            } else {
                proof {
                    text::lemma_next_boundary(b, pos as int);
                }
                let (v, l) = text::decode_scalar_at(self.bytes, pos);
                let ch = self.char_at(pos);
                if v <= 0x1f {
                    return Err(ParseFail { kind: FailKind::ControlChar, offset: pos });
                }
                text::push_char(&mut s, ch);
                self.pos = pos + l;
            }
        }
        Err(ParseFail { kind: FailKind::UnterminatedStringAtEnd, offset: n })
    }
}

/// Reading a string always moves past its opening position.
pub proof fn lemma_string_rest_advances(b: Seq<u8>, pos: int, acc: Seq<char>)
    requires
        0 <= pos,
    ensures
        string_rest(b, pos, acc) matches Ok((_, q)) ==> pos < q,
    decreases b.len() - pos,
{
    if 0 <= pos < b.len() && b[pos] != 0x22 {
        if b[pos] == 0x5c {
            lemma_escape_at(b, pos);
            if let Ok((c, next)) = escape_at(b, pos) {
                lemma_string_rest_advances(b, next, acc.push(c));
            }
        } else {
            let rest = b.subrange(pos, b.len() as int);
            assert(1 <= length_of_first_scalar(rest) <= 4);
            let next = pos + length_of_first_scalar(rest);
            if next <= b.len() {
                lemma_string_rest_advances(b, next, acc.push(char_at(b, pos)));
            }
        }
    }
}

/// Where a run of digits from `i` ends (see [`digits_end`]).
fn skip_digits(s: &[u8], i: usize) -> (r: usize)
    requires
        i <= s@.len(),
    ensures
        r == digits_end(s@, i as int),
        i <= r <= s@.len(),
{
    let mut j = i;
    while j < s.len() && 0x30 <= s[j] && s[j] <= 0x39
        invariant
            i <= j <= s@.len(),
            digits_end(s@, i as int) == digits_end(s@, j as int),
        decreases s.len() - j,
    {
        j += 1;
    }
    j
}

/// Whether `s` follows the JSON number grammar (see [`json_number`]).
pub(crate) fn json_number_ok(s: &[u8]) -> (r: bool)
    ensures
        r == json_number(s@),
{
    let n = s.len();
    let a: usize = if n > 0 && s[0] == 0x2d {
        1
    } else {
        0
    };
    let i = skip_digits(s, a);
    if i == a {
        return false;
    }
    if s[a] == 0x30 && i != a + 1 {
        return false;
    }
    let dot = i < n && s[i] == 0x2e;
    let e = if dot {
        skip_digits(s, i + 1)
    } else {
        i
    };
    if dot && e == i + 1 {
        return false;
    }
    if e == n {
        return true;
    }
    if !(s[e] == 0x65 || s[e] == 0x45) {
        return false;
    }
    let j = if e + 1 < n && (s[e + 1] == 0x2b || s[e + 1] == 0x2d) {
        e + 2
    } else {
        e + 1
    };
    let k = skip_digits(s, j);
    k > j && k == n
}

impl<'a> Parser<'a> {
    /// Reads a scalar whose first byte is at the position (see
    /// [`owned_scalar`]); `trivia` are the comments before it.
    fn parse_scalar(&mut self, trivia: Vec<Trivia>) -> (r: Result<Node, ParseFail>)
        requires
            old(self).ready(),
            old(self).core.pos < old(self).core.bytes@.len(),
        ensures
            final(self).core.input == old(self).core.input,
            final(self).core.bytes == old(self).core.bytes,
            final(self).core.pending_trivia == old(self).core.pending_trivia,
            match owned_scalar(old(self).core.bytes@, old(self).core.pos as int, trivia_view(trivia@)) {
                Ok((n, q)) => r matches Ok(node) && node@ == n && final(self).core.pos == q
                    && final(self).ready() && old(self).core.pos < q,
                Err(f) => r == Err::<Node, ParseFail>(f),
            },
    {
        let ghost b = self.core.bytes@;
        let p = self.core.pos;
        let c = self.core.bytes[p];
        proof {
            text::lemma_str_bytes(self.core.input);
        }
        if c == 0x22 {
            let s = match self.parse_string() {
                Ok(s) => s,
                Err(f) => {
                    return Err(f);
                },
            };
            Ok(Node { value: Value::String(s), trivia, comma: false })
        } else if (0x30 <= c && c <= 0x39) || c == 0x2d {
            let n = match self.parse_number() {
                Ok(n) => n,
                Err(f) => {
                    return Err(f);
                },
            };
            Ok(Node { value: Value::Number(n), trivia, comma: false })
        } else if c == 0x74 {
            let kw: [u8; 4] = [0x74, 0x72, 0x75, 0x65];
            if self.core.try_keyword(kw.as_slice()) {
                proof {
                    assert(b[p + 3] == b.subrange(p as int, p + 4)[3]);
                    text::lemma_after_ascii(b, p + 4);
                }
                Ok(Node { value: Value::Bool(true), trivia, comma: false })
            } else {
                Err(ParseFail { kind: FailKind::UnexpectedIdentifier, offset: p })
            }
        } else if c == 0x66 {
            let kw: [u8; 5] = [0x66, 0x61, 0x6c, 0x73, 0x65];
            if self.core.try_keyword(kw.as_slice()) {
                proof {
                    assert(b[p + 4] == b.subrange(p as int, p + 5)[4]);
                    text::lemma_after_ascii(b, p + 5);
                }
                Ok(Node { value: Value::Bool(false), trivia, comma: false })
            } else {
                Err(ParseFail { kind: FailKind::UnexpectedIdentifier, offset: p })
            }
        } else if c == 0x6e {
            let kw: [u8; 4] = [0x6e, 0x75, 0x6c, 0x6c];
            if self.core.try_keyword(kw.as_slice()) {
                proof {
                    assert(b[p + 3] == b.subrange(p as int, p + 4)[3]);
                    text::lemma_after_ascii(b, p + 4);
                }
                Ok(Node { value: Value::Null, trivia, comma: false })
            } else {
                Err(ParseFail { kind: FailKind::UnexpectedIdentifier, offset: p })
            }
        } else {
            let ch = self.core.char_at(p);
            Err(ParseFail { kind: FailKind::UnexpectedCharacter(ch), offset: p })
        }
    }

    /// After an element and the comments after it: past a `,`, at a `]`, or
    /// at the end (see [`after_element`]).
    fn consume_array_comma(&mut self) -> (r: Result<(), ParseFail>)
        requires
            old(self).ready(),
        ensures
            final(self).core.input == old(self).core.input,
            final(self).core.bytes == old(self).core.bytes,
            final(self).core.pending_trivia == old(self).core.pending_trivia,
            match after_element(
                old(self).core.bytes@,
                old(self).core.pos as int,
                0x5d,
                FailKind::ArrayComma(char_at(old(self).core.bytes@, old(self).core.pos as int)),
            ) {
                Ok(next) => r is Ok && final(self).core.pos == next && final(self).ready(),
                Err(f) => r == Err::<(), ParseFail>(f) && final(self).core.pos == old(
                    self,
                ).core.pos && final(self).ready(),
            },
    {
        let p = self.core.pos;
        if p < self.core.bytes.len() {
            let c = self.core.bytes[p];
            if c == 0x2c {
                self.core.pos = p + 1;
                proof {
                    text::lemma_str_bytes(self.core.input);
                    text::lemma_after_ascii(self.core.bytes@, p + 1);
                }
            } else if c != 0x5d {
                let ch = self.core.char_at(p);
                return Err(ParseFail { kind: FailKind::ArrayComma(ch), offset: p });
            }
        }
        Ok(())
    }

    /// After a member and the comments after it: past a `,`, at a `}`, or
    /// at the end (see [`after_element`]).
    fn consume_object_comma(&mut self) -> (r: Result<(), ParseFail>)
        requires
            old(self).ready(),
        ensures
            final(self).core.input == old(self).core.input,
            final(self).core.bytes == old(self).core.bytes,
            final(self).core.pending_trivia == old(self).core.pending_trivia,
            match after_element(
                old(self).core.bytes@,
                old(self).core.pos as int,
                0x7d,
                FailKind::ObjectComma(char_at(old(self).core.bytes@, old(self).core.pos as int)),
            ) {
                Ok(next) => r is Ok && final(self).core.pos == next && final(self).ready(),
                Err(f) => r == Err::<(), ParseFail>(f) && final(self).core.pos == old(
                    self,
                ).core.pos && final(self).ready(),
            },
    {
        let p = self.core.pos;
        if p < self.core.bytes.len() {
            let c = self.core.bytes[p];
            if c == 0x2c {
                self.core.pos = p + 1;
                proof {
                    text::lemma_str_bytes(self.core.input);
                    text::lemma_after_ascii(self.core.bytes@, p + 1);
                }
            } else if c != 0x7d {
                let ch = self.core.char_at(p);
                return Err(ParseFail { kind: FailKind::ObjectComma(ch), offset: p });
            }
        }
        Ok(())
    }

    /// Skips comments and expects the `:` after a key, leaving the position
    /// after it.
    fn consume_object_colon(&mut self) -> (r: Result<(), ParseFail>)
        requires
            old(self).ready(),
        ensures
            final(self).core.input == old(self).core.input,
            final(self).core.bytes == old(self).core.bytes,
            match skip_trivia(old(self).core.bytes@, old(self).core.pos as int, old(self).core.pending()) {
                Err(f) => r == Err::<(), ParseFail>(f),
                Ok((c, pend)) => if 0 <= c < old(self).core.bytes@.len() && old(
                    self,
                ).core.bytes@[c] == 0x3a {
                    r is Ok && final(self).core.pos == c + 1 && final(self).core.pending() == pend
                        && final(self).ready()
                } else {
                    r == Err::<(), ParseFail>(fail_at(FailKind::ColonAfterKey, c))
                },
            },
    {
        match self.core.consume_trivia() {
            Ok(()) => {},
            Err(f) => {
                return Err(f);
            },
        }
        let c = self.core.pos;
        if c < self.core.bytes.len() && self.core.bytes[c] == 0x3a {
            self.core.pos = c + 1;
            proof {
                text::lemma_str_bytes(self.core.input);
                text::lemma_after_ascii(self.core.bytes@, c + 1);
            }
            Ok(())
        } else {
            Err(ParseFail { kind: FailKind::ColonAfterKey, offset: c })
        }
    }
}


/// What [`Parser::parse_value_impl`] reads: a value at the position,
/// skipping comments first when `consume_trivia` says so.
pub open spec fn value_read(
    b: Seq<u8>,
    pos: int,
    pending: Seq<TriviaView>,
    depth: int,
    consume_trivia: bool,
    strict: bool,
) -> Result<(NodeView, int, Seq<TriviaView>), ParseFail> {
    if consume_trivia {
        value_from(b, pos, pending, depth, strict)
    } else {
        value_at(b, pos, pending, depth, strict)
    }
}

impl<'a> Parser<'a> {
    /// Reads a value at nesting `depth` (see [`value_from`] and
    /// [`value_at`]).
    fn parse_value_impl(&mut self, consume_trivia: bool, depth: usize, strict: bool) -> (r: Result<
        Node,
        ParseFail,
    >)
        requires
            old(self).ready(),
            depth <= MAX_DEPTH,
        ensures
            final(self).core.input == old(self).core.input,
            final(self).core.bytes == old(self).core.bytes,
            match value_read(
                old(self).core.bytes@,
                old(self).core.pos as int,
                old(self).core.pending(),
                depth as int,
                consume_trivia, strict,
            ) {
                Ok((n, q, pend)) => r matches Ok(node) && node@ == n && final(self).core.pos == q
                    && final(self).core.pending() == pend && final(self).ready() && old(
                    self,
                ).core.pos < q,
                Err(f) => r == Err::<Node, ParseFail>(f),
            },
        decreases depth_room(depth as int), 0int, if consume_trivia {
            1int
        } else {
            0int
        },
    {
        let ghost b = self.core.bytes@;
        if consume_trivia {
            proof {
                crate::parser_core::lemma_skip_trivia_mono(
                    b,
                    self.core.pos as int,
                    self.core.pending(),
                );
            }
            match self.core.consume_trivia() {
                Ok(()) => {},
                Err(f) => {
                    return Err(f);
                },
            }
        }
        let p = self.core.pos;
        if p >= self.core.bytes.len() {
            return Err(ParseFail { kind: FailKind::EofBeforeValue, offset: p });
        }
        let token = self.core.bytes[p];
        let trivia = self.core.take_pending_trivia();
        proof {
            assert(self.core.pending() =~= seq![]);
        }
        if token == 0x7b || token == 0x5b {
            if depth >= MAX_DEPTH {
                return Err(ParseFail { kind: FailKind::DepthExceeded, offset: p });
            }
            self.core.pos = p + 1;
            proof {
                text::lemma_str_bytes(self.core.input);
                text::lemma_after_ascii(b, p + 1);
            }
            let inner = if token == 0x7b {
                self.parse_object_value(depth + 1, strict)
            } else {
                self.parse_array_value(depth + 1, strict)
            };
            match inner {
                Ok(value) => Ok(Node { value, trivia, comma: false }),
                Err(f) => Err(f),
            }
        } else {
            self.parse_scalar(trivia)
        }
    }

    /// Reads the rest of an array whose `[` is just before the position (see
    /// [`elements_from`]).
    #[verifier::spinoff_prover]
    #[verifier::rlimit(80)]
    fn parse_array_value(&mut self, depth: usize, strict: bool) -> (r: Result<Value, ParseFail>)
        requires
            old(self).ready(),
            depth <= MAX_DEPTH,
        ensures
            final(self).core.input == old(self).core.input,
            final(self).core.bytes == old(self).core.bytes,
            match elements_from(
                old(self).core.bytes@,
                old(self).core.pos as int,
                old(self).core.pending(),
                depth as int,
                seq![], strict,
            ) {
                Ok((v, q, pend)) => r matches Ok(val) && val@ == v && final(self).core.pos == q
                    && final(self).core.pending() == pend && final(self).ready() && old(
                    self,
                ).core.pos < q,
                Err(f) => r == Err::<Value, ParseFail>(f),
            },
        decreases depth_room(depth as int), 1int, 0int,
    {
        let ghost b = self.core.bytes@;
        let ghost input = self.core.input;
        let ghost start = self.core.pos as int;
        let ghost goal = elements_from(b, start, self.core.pending(), depth as int, seq![], strict);
        let mut elements: Vec<Node> = Vec::new();
        proof {
            assert(node_views(elements@) =~= seq![]);
            text::lemma_str_bytes(input);
        }
        loop
            invariant
                self.ready(),
                self.core.input == input,
                self.core.bytes@ == b,
                b == input.spec_bytes(),
                vstd::utf8::valid_utf8(b),
                depth <= MAX_DEPTH,
                input == old(self).core.input,
                self.core.bytes == old(self).core.bytes,
                b == old(self).core.bytes@,
                start == old(self).core.pos,
                goal == elements_from(b, start, old(self).core.pending(), depth as int, seq![], strict),
                start <= self.core.pos,
                goal == elements_from(
                    b,
                    self.core.pos as int,
                    self.core.pending(),
                    depth as int,
                    node_views(elements@), strict,
                ),
            decreases b.len() - self.core.pos,
        {
            let ghost pos1 = self.core.pos as int;
            let ghost iv = node_views(elements@);
            proof {
                crate::parser_core::lemma_skip_trivia_mono(b, pos1, self.core.pending());
            }
            match self.core.consume_trivia() {
                Ok(()) => {},
                Err(f) => {
                    return Err(f);
                },
            }
            let p = self.core.pos;
            if p >= self.core.bytes.len() {
                return Err(ParseFail { kind: FailKind::EofInArrayValue, offset: p });
            }
            if self.core.bytes[p] == 0x5d {
                self.core.pos = p + 1;
                proof {
                    text::lemma_after_ascii(b, p + 1);
                }
                if elements.len() > 0 {
                    let mut pending = self.core.take_pending_trivia();
                    let ghost pend_tr = pending@;
                    let mut last = elements.pop().unwrap();
                    let ghost last_tr = last.trivia@;
                    last.trivia.append(&mut pending);
                    elements.push(last);
                    proof {
                        crate::lazy_parser::lemma_trivia_view_concat(last_tr, pend_tr);
                        assert(node_views(elements@) =~= iv.update(
                            iv.len() - 1,
                            with_comments(iv[iv.len() - 1], trivia_view(pend_tr)),
                        ));
                        assert(self.core.pending() =~= seq![]);
                    }
                }
                proof {
                    lemma_array_value_view(elements);
                }
                return Ok(Value::Array(elements));
            }
            let node = match self.parse_value_impl(false, depth, strict) {
                Ok(n) => n,
                Err(f) => {
                    return Err(f);
                },
            };
            proof {
                crate::parser_core::lemma_skip_trivia_mono(
                    b,
                    self.core.pos as int,
                    self.core.pending(),
                );
            }
            match self.core.consume_trivia() {
                Ok(()) => {},
                Err(f) => {
                    return Err(f);
                },
            }
            match self.consume_array_comma() {
                Ok(()) => {},
                Err(f) => {
                    return Err(f);
                },
            }
            elements.push(node);
            proof {
                assert(node_views(elements@) =~= iv.push(node@));
            }
        }
    }

    /// Reads a member whose key's opening quote is at the position (see
    /// [`member_at`]); `key_trivia` are the comments before the key.
    fn parse_member(&mut self, depth: usize, key_trivia: Vec<Trivia>, strict: bool) -> (r: Result<
        ObjectEntry,
        ParseFail,
    >)
        requires
            old(self).ready(),
            old(self).core.pos < old(self).core.bytes@.len(),
            old(self).core.bytes@[old(self).core.pos as int] == 0x22,
            old(self).core.pending_trivia@.len() == 0,
            depth <= MAX_DEPTH,
        ensures
            final(self).core.input == old(self).core.input,
            final(self).core.bytes == old(self).core.bytes,
            match member_at(
                old(self).core.bytes@,
                old(self).core.pos as int,
                trivia_view(key_trivia@),
                depth as int, strict,
            ) {
                Ok((e, q, pend)) => r matches Ok(entry) && entry@ == e && final(self).core.pos == q
                    && final(self).core.pending() == pend && final(self).ready() && old(
                    self,
                ).core.pos < q,
                Err(f) => r == Err::<ObjectEntry, ParseFail>(f),
            },
        decreases depth_room(depth as int), 0int, 2int,
    {
        let ghost b = self.core.bytes@;
        let key = match self.parse_string() {
            Ok(k) => k,
            Err(f) => {
                return Err(f);
            },
        };
        proof {
            assert(self.core.pending() =~= seq![]);
            crate::parser_core::lemma_skip_trivia_mono(b, self.core.pos as int, self.core.pending());
        }
        match self.consume_object_colon() {
            Ok(()) => {},
            Err(f) => {
                return Err(f);
            },
        }
        let value = match self.parse_value_impl(true, depth, strict) {
            Ok(n) => n,
            Err(f) => {
                return Err(f);
            },
        };
        proof {
            crate::parser_core::lemma_skip_trivia_mono(b, self.core.pos as int, self.core.pending());
        }
        match self.core.consume_trivia() {
            Ok(()) => {},
            Err(f) => {
                return Err(f);
            },
        }
        Ok(ObjectEntry { key, key_trivia, value })
    }

    /// Reads the rest of an object whose `{` is just before the position
    /// (see [`members_from`]).
    #[verifier::spinoff_prover]
    #[verifier::rlimit(80)]
    fn parse_object_value(&mut self, depth: usize, strict: bool) -> (r: Result<Value, ParseFail>)
        requires
            old(self).ready(),
            depth <= MAX_DEPTH,
        ensures
            final(self).core.input == old(self).core.input,
            final(self).core.bytes == old(self).core.bytes,
            match members_from(
                old(self).core.bytes@,
                old(self).core.pos as int,
                old(self).core.pending(),
                depth as int,
                seq![], strict,
            ) {
                Ok((v, q, pend)) => r matches Ok(val) && val@ == v && final(self).core.pos == q
                    && final(self).core.pending() == pend && final(self).ready() && old(
                    self,
                ).core.pos < q,
                Err(f) => r == Err::<Value, ParseFail>(f),
            },
        decreases depth_room(depth as int), 1int, 0int,
    {
        let ghost b = self.core.bytes@;
        let ghost input = self.core.input;
        let ghost start = self.core.pos as int;
        let ghost goal = members_from(b, start, self.core.pending(), depth as int, seq![], strict);
        let mut members: Vec<ObjectEntry> = Vec::new();
        proof {
            assert(entry_views(members@) =~= seq![]);
            text::lemma_str_bytes(input);
        }
        loop
            invariant
                self.ready(),
                self.core.input == input,
                self.core.bytes@ == b,
                b == input.spec_bytes(),
                vstd::utf8::valid_utf8(b),
                depth <= MAX_DEPTH,
                input == old(self).core.input,
                self.core.bytes == old(self).core.bytes,
                b == old(self).core.bytes@,
                start == old(self).core.pos,
                goal == members_from(b, start, old(self).core.pending(), depth as int, seq![], strict),
                start <= self.core.pos,
                goal == members_from(
                    b,
                    self.core.pos as int,
                    self.core.pending(),
                    depth as int,
                    entry_views(members@), strict,
                ),
            decreases b.len() - self.core.pos,
        {
            let ghost pos1 = self.core.pos as int;
            let ghost ev = entry_views(members@);
            proof {
                crate::parser_core::lemma_skip_trivia_mono(b, pos1, self.core.pending());
            }
            match self.core.consume_trivia() {
                Ok(()) => {},
                Err(f) => {
                    return Err(f);
                },
            }
            let p = self.core.pos;
            if p >= self.core.bytes.len() {
                return Err(ParseFail { kind: FailKind::EofInObjectValue, offset: p });
            }
            if self.core.bytes[p] == 0x7d {
                self.core.pos = p + 1;
                proof {
                    text::lemma_after_ascii(b, p + 1);
                }
                if members.len() > 0 {
                    let mut pending = self.core.take_pending_trivia();
                    let ghost pend_tr = pending@;
                    let mut last = members.pop().unwrap();
                    let ghost last_tr = last.value.trivia@;
                    last.value.trivia.append(&mut pending);
                    members.push(last);
                    proof {
                        crate::lazy_parser::lemma_trivia_view_concat(last_tr, pend_tr);
                        let e = ev[ev.len() - 1];
                        assert(entry_views(members@) =~= ev.update(
                            ev.len() - 1,
                            EntryView {
                                key: e.key,
                                key_trivia: e.key_trivia,
                                value: with_comments(e.value, trivia_view(pend_tr)),
                            },
                        ));
                        assert(self.core.pending() =~= seq![]);
                    }
                }
                proof {
                    lemma_object_value_view(members);
                }
                return Ok(Value::Object(members));
            }
            let key_trivia = self.core.take_pending_trivia();
            proof {
                assert(self.core.pending() =~= seq![]);
            }
            if self.core.bytes[p] != 0x22 {
                return Err(ParseFail { kind: FailKind::StringKey, offset: self.core.bytes.len() });
            }
            let entry = match self.parse_member(depth, key_trivia, strict) {
                Ok(e) => e,
                Err(f) => {
                    return Err(f);
                },
            };
            if strict && crate::pointer::member_position(&members, entry.key.as_str()).is_some() {
                return Err(ParseFail { kind: FailKind::DuplicateKey, offset: p });
            }
            match self.consume_object_comma() {
                Ok(()) => {},
                Err(f) => {
                    return Err(f);
                },
            }
            let ghost em = entry@;
            members.push(entry);
            proof {
                assert(entry_views(members@) =~= ev.push(em));
            }
        }
    }

    /// The error a failure is reported as: its message, at the line and
    /// column of its offset.
    fn err(&self, f: ParseFail) -> (e: Error)
        requires
            self.core.wf(),
        ensures
            owned_reports(self.core.bytes@, f, e),
    {
        let (line, col) = self.core.position_from_offset(f.offset);
        let msg = match f.kind {
            FailKind::DuplicateKey => {
                if f.offset < self.core.bytes.len() && self.core.bytes[f.offset] == 0x22 {
                    let mut key_reader = Parser {
                        core: ParserCore {
                            input: self.core.input,
                            bytes: self.core.bytes,
                            pos: f.offset,
                            pending_trivia: Vec::new(),
                        },
                    };
                    match key_reader.parse_string() {
                        Ok(key) => {
                            let mut m = text::to_owned_string("duplicate key ");
                            let shown = text::debug_str(key.as_str());
                            text::append_str(&mut m, shown.as_str());
                            proof {
                                reveal_strlit("duplicate key ");
                            }
                            m
                        },
                        Err(_) => crate::parser_core::fail_message_text(f.kind),
                    }
                } else {
                    crate::parser_core::fail_message_text(f.kind)
                }
            },
            _ => crate::parser_core::fail_message_text(f.kind),
        };
        Error::Parse { line, col, msg }
    }

    /// Reads a whole document (see [`owned_document_with`]).
    fn parse_inner(&mut self, strict: bool) -> (r: Result<Node, ParseFail>)
        requires
            old(self).ready(),
            old(self).core.pos == 0,
            old(self).core.pending_trivia@.len() == 0,
        ensures
            final(self).core.input == old(self).core.input,
            final(self).core.bytes == old(self).core.bytes,
            match owned_document_with(old(self).core.bytes@, strict) {
                Ok(n) => r matches Ok(node) && node@ == n,
                Err(f) => r == Err::<Node, ParseFail>(f),
            },
    {
        let ghost b = self.core.bytes@;
        self.core.skip_bom();
        proof {
            assert(self.core.pending() =~= seq![]);
        }
        let mut node = match self.parse_value_impl(true, 0, strict) {
            Ok(n) => n,
            Err(f) => {
                return Err(f);
            },
        };
        match self.core.consume_trivia() {
            Ok(()) => {},
            Err(f) => {
                return Err(f);
            },
        }
        let mut pending = self.core.take_pending_trivia();
        let ghost pend_tr = pending@;
        let ghost node_tr = node.trivia@;
        node.trivia.append(&mut pending);
        proof {
            crate::lazy_parser::lemma_trivia_view_concat(node_tr, pend_tr);
        }
        if self.core.pos < self.core.bytes.len() {
            let ch = self.core.char_at(self.core.pos);
            return Err(ParseFail { kind: FailKind::TrailingCharacter(ch), offset: self.core.pos });
        }
        Ok(node)
    }

    /// Parses the whole input (see [`owned_document_with`]); a key that
    /// repeats in an object is kept, each member in its place. A failure is
    /// reported as a parse error at its line and column.
    pub fn parse(&mut self) -> (r: crate::error::Result<Node>)
        requires
            old(self).ready(),
            old(self).at_start(),
        ensures
            match owned_document_with(old(self).input_bytes(), false) {
                Ok(n) => r matches Ok(node) && node@ == n,
                Err(f) => r matches Err(e) && owned_reports(old(self).input_bytes(), f, e),
            },
    {
        self.parse_checked(false)
    }

    /// Parses the whole input, refusing a repeated key when `strict` (see
    /// [`owned_document_with`]).
    pub(crate) fn parse_checked(&mut self, strict: bool) -> (r: crate::error::Result<Node>)
        requires
            old(self).ready(),
            old(self).at_start(),
        ensures
            match owned_document_with(old(self).input_bytes(), strict) {
                Ok(n) => r matches Ok(node) && node@ == n,
                Err(f) => r matches Err(e) && owned_reports(old(self).input_bytes(), f, e),
            },
    {
        match self.parse_inner(strict) {
            Ok(node) => Ok(node),
            Err(f) => Err(self.err(f)),
        }
    }
}

/// `std::str::Utf8Error`, the fault `std::str::from_utf8` reports.
#[verifier::external_type_specification]
#[verifier::external_body]
pub struct ExUtf8Error(std::str::Utf8Error);

/// `std::str::from_utf8`: the bytes as text exactly when they are UTF-8
/// (its documentation: an error "if the slice is not UTF-8"), the text then
/// having those bytes.
#[verifier::external_body]
fn str_from_utf8(v: &[u8]) -> (r: Result<&str, std::str::Utf8Error>)
    ensures
        r is Ok <==> valid_utf8(v@),
        r matches Ok(s) ==> s.spec_bytes() == v@,
{
    std::str::from_utf8(v)
}

/// `Utf8Error`'s `Display`: the description of why the bytes are not UTF-8.
/// Nothing is stated of its words.
#[verifier::external_body]
fn utf8_error_text(e: &std::str::Utf8Error) -> String {
    e.to_string()
}

/// Parses bytes of JSON with comments into an owned [`Node`]: bytes that are
/// not UTF-8 give an [`Error::Custom`] with the description of the fault;
/// other input is parsed as by [`from_str`].
pub fn from_slice(v: &[u8]) -> (r: crate::error::Result<Node>)
    requires
        v@.len() <= isize::MAX,
    ensures
        !valid_utf8(v@) ==> r matches Err(Error::Custom(_)),
        valid_utf8(v@) ==> match owned_document(v@) {
            Ok(n) => r matches Ok(node) && node@ == n,
            Err(f) => r matches Err(e) && owned_reports(v@, f, e),
        },
{
    match str_from_utf8(v) {
        Ok(s) => from_str(s),
        Err(e) => Err(Error::Custom(utf8_error_text(&e))),
    }
}

/// Parses JSON with comments into an owned [`Node`] (see
/// [`owned_document`]).
pub fn from_str(s: &str) -> (r: crate::error::Result<Node>)
    requires
        s.spec_bytes().len() <= isize::MAX,
    ensures
        match owned_document(s.spec_bytes()) {
            Ok(n) => r matches Ok(node) && node@ == n,
            Err(f) => r matches Err(e) && owned_reports(s.spec_bytes(), f, e),
        },
{
    let mut p = Parser::new(s);
    p.parse_checked(true)
}

} // verus!

verus! {

// ---------------------------------------------------------------------------
// Reading back what the serializer writes
// ---------------------------------------------------------------------------

/// The bytes of one character: an ASCII character is its own byte, any other
/// is written with bytes from 0x80 up.
pub(crate) proof fn lemma_scalar_bytes(c: char)
    ensures
        1 <= encode_scalar(c as u32).len() <= 4,
        (c as u32) < 0x80 ==> encode_scalar(c as u32) == seq![(c as u32) as u8],
        (c as u32) >= 0x80 ==> forall|i: int|
            0 <= i < encode_scalar(c as u32).len() ==> #[trigger] encode_scalar(c as u32)[i]
                >= 0x80,
{
    let v = c as u32;
    if has_width_1_encoding(v) {
        assert(((v & 0x7F) as u8) == v as u8) by (bit_vector)
            requires
                v <= 0x7F,
        ;
    } else {
        assert((0xC0 | ((v >> 6) & 0x1F) as u8) >= 0x80) by (bit_vector);
        assert((0xE0 | ((v >> 12) & 0x0F) as u8) >= 0x80) by (bit_vector);
        assert((0xF0 | ((v >> 18) & 0x7) as u8) >= 0x80) by (bit_vector);
        assert((0x80 | (v & 0x3F) as u8) >= 0x80) by (bit_vector);
        assert((0x80 | ((v >> 6) & 0x3F) as u8) >= 0x80) by (bit_vector);
        assert((0x80 | ((v >> 12) & 0x3F) as u8) >= 0x80) by (bit_vector);
    }
}

/// Encoding text is encoding each part.
pub(crate) proof fn lemma_encode_concat(x: Seq<char>, y: Seq<char>)
    ensures
        encode_utf8(x + y) == encode_utf8(x) + encode_utf8(y),
    decreases x.len(),
{
    if x.len() == 0 {
        assert(x + y =~= y);
        assert(encode_utf8(x) + encode_utf8(y) =~= encode_utf8(y));
    } else {
        lemma_encode_concat(x.drop_first(), y);
        assert((x + y).drop_first() =~= x.drop_first() + y);
        assert((x + y)[0] == x[0]);
        assert(encode_utf8(x + y) =~= encode_utf8(x) + encode_utf8(y));
    }
}

/// The first character decoded from its own bytes followed by anything is
/// that character, and takes its bytes.
pub(crate) proof fn lemma_first_scalar_of(c: char, y: Seq<u8>)
    ensures
        decode_first_scalar(encode_scalar(c as u32) + y) == c as u32,
        length_of_first_scalar(encode_scalar(c as u32) + y) == encode_scalar(c as u32).len(),
{
    let x = encode_scalar(c as u32);
    encode_utf8_first_scalar(seq![c]);
    assert(seq![c].drop_first() =~= seq![]);
    assert(encode_utf8(seq![c].drop_first()) =~= seq![]);
    assert(encode_utf8(seq![c]) == x + encode_utf8(seq![c].drop_first()));
    assert(encode_utf8(seq![c]) =~= x);
    lemma_scalar_bytes(c);
    let z = x + y;
    assert(z[0] == x[0]);
    if x.len() >= 2 {
        assert(z[1] == x[1]);
    }
    if x.len() >= 3 {
        assert(z[2] == x[2]);
    }
    if x.len() >= 4 {
        assert(z[3] == x[3]);
    }
}

/// Escaping text is escaping each part.
pub(crate) proof fn lemma_escaped_concat(a: Seq<char>, b: Seq<char>)
    ensures
        escaped(a + b) == escaped(a) + escaped(b),
    decreases b.len(),
{
    if b.len() == 0 {
        assert(a + b =~= a);
        assert(escaped(b) =~= seq![]);
        assert(escaped(a) + escaped(b) =~= escaped(a));
    } else {
        lemma_escaped_concat(a, b.drop_last());
        assert((a + b).drop_last() =~= a + b.drop_last());
        assert((a + b).last() == b.last());
        assert(escaped(a + b) =~= escaped(a) + escaped(b));
    }
}

/// A character written as itself.
pub open spec fn plain_char(c: char) -> bool {
    escape_char(c) == seq![c]
}

/// The value of a digit `hex_upper` writes.
proof fn lemma_hex_upper(d: int)
    requires
        0 <= d < 16,
    ensures
        (hex_upper(d) as u32) < 0x80,
        hex_digit((hex_upper(d) as u32) as u8) == Some(d),
{
}

/// Reading a character written as itself.
#[verifier::rlimit(40)]
proof fn lemma_read_plain(b: Seq<u8>, p: int, c: char, acc: Seq<char>)
    requires
        0 <= p,
        escape_char(c) == seq![c],
        p + encode_utf8(seq![c]).len() < b.len(),
        b.subrange(p, p + encode_utf8(seq![c]).len()) == encode_utf8(seq![c]),
    ensures
        string_rest(b, p, acc) == string_rest(b, p + encode_utf8(seq![c]).len(), acc.push(c)),
{
    let v = c as u32;
    let ec = encode_utf8(seq![c]);
    let n = ec.len();
    assert(seq![c].drop_first() =~= seq![]);
    assert(encode_utf8(seq![c].drop_first()) =~= seq![]);
    assert(ec == encode_scalar(v) + encode_utf8(seq![c].drop_first()));
    assert(ec =~= encode_scalar(v));
    lemma_scalar_bytes(c);
    assert(b[p] == ec[0]) by {
        assert(b.subrange(p, p + n)[0] == b[p]);
    }
    let rest = b.subrange(p, b.len() as int);
    assert(rest =~= ec + b.subrange(p + n, b.len() as int));
    lemma_first_scalar_of(c, b.subrange(p + n, b.len() as int));
    vstd::utf8::char_u32_cast(c, v);
    assert(char_at(b, p) == c);
    assert(v > 0x1f) by {
        if v <= 0x1f {
            assert(escape_char(c).len() >= 2);
        }
    }
    assert(b[p] != 0x22 && b[p] != 0x5c) by {
        if v < 0x80 {
            assert(c != '"' && c != '\\');
        }
    }
}

/// Reading a character written as `\u00XX`.
proof fn lemma_read_unicode(b: Seq<u8>, p: int, c: char, acc: Seq<char>)
    requires
        0 <= p,
        (c as u32) <= 0x1f,
        escape_char(c).len() == 6,
        p + 6 < b.len(),
        b.subrange(p, p + 6) == encode_utf8(escape_char(c)),
    ensures
        string_rest(b, p, acc) == string_rest(b, p + 6, acc.push(c)),
{
    let v = c as u32;
    let e = escape_char(c);
    let h = hex_upper(v as int / 16);
    let l = hex_upper(v as int % 16);
    lemma_hex_upper(v as int / 16);
    lemma_hex_upper(v as int % 16);
    assert(e == seq!['\\', 'u', '0', '0', h, l]);
    assert(is_ascii_chars(e));
    vstd::utf8::is_ascii_chars_encode_utf8(e);
    let ec = encode_utf8(e);
    assert forall|k: int| 0 <= k < 6 implies #[trigger] b[p + k] == e[k] as u8 by {
        assert(b.subrange(p, p + 6)[k] == b[p + k]);
        assert(ec[k] == e[k] as u8);
    }
    assert(b.subrange(p + 2, p + 6) =~= seq![0x30u8, 0x30u8, h as u8, l as u8]);
    assert(hex_at(b, p + 2) == Ok::<int, ParseFail>(v as int));
    vstd::utf8::char_u32_cast(c, v);
    assert(escape_at(b, p) == Ok::<(char, int), ParseFail>((c, p + 6)));
}

/// Reading a character written as a backslash and a letter.
proof fn lemma_read_short(b: Seq<u8>, p: int, c: char, acc: Seq<char>)
    requires
        0 <= p,
        escape_char(c).len() == 2,
        p + 2 < b.len(),
        b.subrange(p, p + 2) == encode_utf8(escape_char(c)),
    ensures
        string_rest(b, p, acc) == string_rest(b, p + 2, acc.push(c)),
{
    let e = escape_char(c);
    assert(e[0] == '\\');
    assert(is_ascii_chars(e));
    vstd::utf8::is_ascii_chars_encode_utf8(e);
    assert(b.subrange(p, p + 2)[0] == b[p] && b.subrange(p, p + 2)[1] == b[p + 1]);
    assert(b[p] == 0x5c);
    assert(simple_escape(b[p + 1]) == Some(c));
    assert(escape_at(b, p) == Ok::<(char, int), ParseFail>((c, p + 2)));
}

/// Reading one escaped character: from its first byte the reader moves past
/// its bytes with the character added.
proof fn lemma_read_one(b: Seq<u8>, p: int, c: char, acc: Seq<char>)
    requires
        0 <= p,
        p + encode_utf8(escape_char(c)).len() < b.len(),
        b.subrange(p, p + encode_utf8(escape_char(c)).len()) == encode_utf8(escape_char(c)),
    ensures
        string_rest(b, p, acc) == string_rest(
            b,
            p + encode_utf8(escape_char(c)).len(),
            acc.push(c),
        ),
{
    let e = escape_char(c);
    if e == seq![c] {
        lemma_read_plain(b, p, c, acc);
    } else if e.len() == 6 {
        vstd::utf8::is_ascii_chars_encode_utf8(e);
        lemma_read_unicode(b, p, c, acc);
    } else {
        vstd::utf8::is_ascii_chars_encode_utf8(e);
        lemma_read_short(b, p, c, acc);
    }
}


/// Escaping one character.
pub(crate) proof fn lemma_escaped_one(c: char)
    ensures
        escaped(seq![c]) == escape_char(c),
{
    assert(seq![c].drop_last() =~= Seq::<char>::empty());
    assert(escaped(Seq::<char>::empty()) =~= Seq::<char>::empty());
    assert(seq![c].last() == c);
    assert(escaped(seq![c]) =~= escape_char(c));
}

/// Escaped text that starts with a character not written as itself starts
/// with a backslash byte.
pub(crate) proof fn lemma_escape_starts(t: Seq<char>)
    requires
        t.len() > 0,
        !plain_char(t[0]),
    ensures
        encode_utf8(escaped(t)).len() > 0,
        encode_utf8(escaped(t))[0] == 0x5c,
{
    let c = t[0];
    assert(t =~= seq![c] + t.drop_first());
    lemma_escaped_concat(seq![c], t.drop_first());
    lemma_escaped_one(c);
    let e = escape_char(c);
    assert(e[0] == '\\');
    lemma_encode_concat(e, escaped(t.drop_first()));
    vstd::utf8::encode_utf8_first_scalar(e);
    lemma_scalar_bytes('\\');
    assert(encode_scalar('\\' as u32) == seq![0x5cu8]);
    assert(encode_utf8(e)[0] == 0x5c);
}

/// Reading back escaped text up to a closing quote: the reader moves past
/// the escaped bytes and the quote with the text added.
pub(crate) proof fn lemma_read_escaped(b: Seq<u8>, p: int, t: Seq<char>, acc: Seq<char>)
    requires
        0 <= p,
        p + encode_utf8(escaped(t)).len() < b.len(),
        b.subrange(p, p + encode_utf8(escaped(t)).len()) == encode_utf8(escaped(t)),
        b[p + encode_utf8(escaped(t)).len()] == 0x22,
    ensures
        string_rest(b, p, acc) == Ok::<(Seq<char>, int), ParseFail>(
            (acc + t, p + encode_utf8(escaped(t)).len() + 1),
        ),
    decreases t.len(),
{
    if t.len() == 0 {
        assert(escaped(t) =~= seq![]);
        assert(encode_utf8(escaped(t)) =~= seq![]);
        assert(acc + t =~= acc);
    } else {
        let c = t[0];
        let rest = t.drop_first();
        assert(t =~= seq![c] + rest);
        lemma_escaped_concat(seq![c], rest);
        lemma_escaped_one(c);
        lemma_encode_concat(escape_char(c), escaped(rest));
        let e1 = encode_utf8(escape_char(c));
        let e2 = encode_utf8(escaped(rest));
        let n1 = e1.len() as int;
        assert(encode_utf8(escaped(t)) == e1 + e2);
        assert(b.subrange(p, p + n1) =~= e1) by {
            assert forall|k: int| 0 <= k < n1 implies #[trigger] b.subrange(p, p + n1)[k] == e1[k] by {
                assert(b.subrange(p, p + n1 + e2.len())[k] == (e1 + e2)[k]);
            }
        }
        assert(b.subrange(p + n1, p + n1 + e2.len()) =~= e2) by {
            assert forall|k: int| 0 <= k < e2.len() implies #[trigger] b.subrange(
                p + n1,
                p + n1 + e2.len(),
            )[k] == e2[k] by {
                assert(b.subrange(p, p + n1 + e2.len())[n1 + k] == (e1 + e2)[n1 + k]);
            }
        }
        lemma_read_one(b, p, c, acc);
        lemma_read_escaped(b, p + n1, rest, acc.push(c));
        assert(acc.push(c) + rest =~= acc + t);
    }
}

/// Text of characters written as themselves is its own escape.
pub(crate) proof fn lemma_escaped_plain(t: Seq<char>)
    requires
        forall|k: int| 0 <= k < t.len() ==> plain_char(#[trigger] t[k]),
    ensures
        escaped(t) == t,
    decreases t.len(),
{
    if t.len() > 0 {
        assert(plain_char(t[t.len() - 1]));
        lemma_escaped_plain(t.drop_last());
        assert(t.drop_last().push(t.last()) =~= t);
    }
}

/// The bytes of characters written as themselves are neither quotes,
/// backslashes nor control bytes.
pub(crate) proof fn lemma_plain_bytes(t: Seq<char>)
    requires
        forall|k: int| 0 <= k < t.len() ==> plain_char(#[trigger] t[k]),
    ensures
        forall|k: int|
            0 <= k < encode_utf8(t).len() ==> {
                let x = #[trigger] encode_utf8(t)[k];
                x != 0x22 && x != 0x5c && x >= 0x20
            },
    decreases t.len(),
{
    if t.len() > 0 {
        let c = t[0];
        assert(plain_char(c));
        lemma_plain_bytes(t.drop_first());
        lemma_scalar_bytes(c);
        let v = c as u32;
        assert(v > 0x1f) by {
            if v <= 0x1f {
                assert(escape_char(c).len() >= 2);
            }
        }
        if v < 0x80 {
            if c == '"' || c == '\\' {
                assert(escape_char(c).len() == 2);
            }
            vstd::utf8::char_u32_cast(c, v);
        }
        let x = encode_scalar(v);
        let y = encode_utf8(t.drop_first());
        assert(encode_utf8(t) == x + y);
        assert forall|k: int| 0 <= k < encode_utf8(t).len() implies {
            let z = #[trigger] encode_utf8(t)[k];
            z != 0x22 && z != 0x5c && z >= 0x20
        } by {
            if k < x.len() {
                assert(encode_utf8(t)[k] == x[k]);
            } else {
                assert(encode_utf8(t)[k] == y[k - x.len()]);
            }
        }
    }
}

/// Where the characters written as themselves end in `s`, from `i` on.
pub(crate) proof fn lemma_plain_run(s: Seq<char>, i: int) -> (m: int)
    requires
        0 <= i <= s.len(),
    ensures
        i <= m <= s.len(),
        forall|k: int| i <= k < m ==> plain_char(#[trigger] s[k]),
        m < s.len() ==> !plain_char(s[m]),
    decreases s.len() - i,
{
    if i < s.len() && plain_char(s[i]) {
        lemma_plain_run(s, i + 1)
    } else {
        i
    }
}

/// No control byte between `from` and `to`.
pub(crate) proof fn lemma_no_control(b: Seq<u8>, from: int, to: int)
    requires
        forall|k: int| from <= k < to ==> #[trigger] b[k] >= 0x20,
    ensures
        first_control(b, from, to) == -1,
    decreases to - from,
{
    if from < to {
        lemma_no_control(b, from + 1, to);
    }
}

} // verus!
