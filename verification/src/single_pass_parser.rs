//! A second parser for owned trees that reads the input in one pass with no
//! nesting limit. Strings and numbers follow the same grammar as in
//! [`crate::parser::Parser`] (no unescaped control character in a string,
//! JSON numbers, integers that fit in an `i64` kept exact), and whitespace
//! is JSON whitespace only. It differs in what else it accepts and reports:
//! the `:` after a key is looked for past comments as well as whitespace; an
//! element or member followed by a `,` is marked as such; a key may repeat;
//! and failures are plain messages, most of them ending in the line and
//! column.

use vstd::prelude::*;
use vstd::string::StringSliceAdditionalSpecFns;
use vstd::utf8::*;
use crate::ast::{
    EntryView, Node, NodeView, Number, NumberView, ObjectEntry, Trivia, TriviaView, Value,
    ValueView, entry_views, lemma_array_value_view, lemma_object_value_view, node_views,
    trivia_view,
};
use crate::lazy_parser::{has_keyword, kw_false, kw_null, kw_true};
use crate::parser::{
    after_element, char_at, lemma_string_rest_advances,
    parse_number, parse_string, plain_node, string_rest, with_comments,
};
use crate::parser_core::{
    bom_end,
    FailKind, ParseFail, ParserCore, block_close, fail_at, fail_message, is_digit,
    lemma_block_close, lemma_skip_trivia_mono, line_col, number_end, skip_trivia, text_of,
};
use crate::simd::{is_ws_byte, lemma_first_match, newline_from, string_end_from, ByteClass};
use crate::text;
use crate::text::decimal;

verus! {

// ---------------------------------------------------------------------------
// What the single-pass parser reads
// ---------------------------------------------------------------------------

/// A scalar whose first byte is at `p`, with the comments before it.
pub open spec fn spp_scalar(b: Seq<u8>, p: int, trivia: Seq<TriviaView>) -> Result<
    (NodeView, int),
    ParseFail,
> {
    let c = b[p];
    if c == 0x22 {
        match parse_string(b, p) {
            Err(f) => Err(f),
            Ok((s, q)) => Ok((plain_node(ValueView::String(s), trivia), q)),
        }
    } else if is_digit(c) || c == 0x2d {
        match parse_number(b, p) {
            Err(f) => Err(f),
            Ok((n, q)) => Ok((plain_node(ValueView::Number(n), trivia), q)),
        }
    } else if c == 0x74 {
        if has_keyword(b, p, kw_true()) {
            Ok((plain_node(ValueView::Bool(true), trivia), p + 4))
        } else {
            Err(fail_at(FailKind::UnexpectedIdentifier, p))
        }
    } else if c == 0x66 {
        if has_keyword(b, p, kw_false()) {
            Ok((plain_node(ValueView::Bool(false), trivia), p + 5))
        } else {
            Err(fail_at(FailKind::UnexpectedIdentifier, p))
        }
    } else if c == 0x6e {
        if has_keyword(b, p, kw_null()) {
            Ok((plain_node(ValueView::Null, trivia), p + 4))
        } else {
            Err(fail_at(FailKind::UnexpectedIdentifier, p))
        }
    } else {
        Err(fail_at(FailKind::UnexpectedCharacter(char_at(b, p)), p))
    }
}

/// From `pos` (just after a key) to the `:`: past comments and JSON
/// whitespace. The offset after the `:`
/// and the comments read, appended to `pending`.
pub open spec fn colon_from(b: Seq<u8>, pos: int, pending: Seq<TriviaView>) -> Result<
    (int, Seq<TriviaView>),
    ParseFail,
>
    decreases b.len() + 4 - pos,
{
    if pos < 0 || pos >= b.len() {
        Err(fail_at(FailKind::ColonEof, b.len() as int))
    } else if b[pos] == 0x3a {
        Ok((pos + 1, pending))
    } else if b[pos] == 0x2f {
        if pos + 1 >= b.len() {
            Err(fail_at(FailKind::EofAfterSlash, b.len() as int))
        } else if b[pos + 1] == 0x2f {
            let end = newline_from(b, pos + 2);
            proof {
                lemma_first_match(b, pos + 2, ByteClass::Newline);
            }
            colon_from(b, end, pending.push(TriviaView::LineComment(text_of(b, pos + 2, end))))
        } else if b[pos + 1] == 0x2a {
            let close = block_close(b, pos + 2);
            proof {
                lemma_block_close(b, pos + 2);
            }
            if close < 0 {
                Err(fail_at(FailKind::UnterminatedBlock, b.len() as int))
            } else {
                colon_from(
                    b,
                    close + 2,
                    pending.push(TriviaView::BlockComment(text_of(b, pos + 2, close))),
                )
            }
        } else {
            Err(fail_at(FailKind::UnexpectedSlash, pos))
        }
    } else if is_ws_byte(b[pos]) {
        colon_from(b, pos + 1, pending)
    } else {
        Err(fail_at(FailKind::BetweenKeyAndColon(char_at(b, pos)), pos))
    }
}

/// How much input is left from `p` on; none past the end.
pub open spec fn room(b: Seq<u8>, p: int) -> int {
    if p < b.len() {
        b.len() - p
    } else {
        0
    }
}

/// `n`, marked as followed by a `,` when `comma` holds.
pub open spec fn marked(n: NodeView, comma: bool) -> NodeView {
    NodeView { value: n.value, trivia: n.trivia, comma: n.comma || comma }
}

/// Whether a `,` is at `r`.
pub open spec fn comma_at(b: Seq<u8>, r: int) -> bool {
    0 <= r < b.len() && b[r] == 0x2c
}

/// A value whose first byte is at `p` (comments already skipped), with
/// `pending` the comments before it: the node, where the input continues,
/// and the comments read but not attached.
pub open spec fn spp_value_at(b: Seq<u8>, p: int, pending: Seq<TriviaView>) -> Result<
    (NodeView, int, Seq<TriviaView>),
    ParseFail,
>
    decreases room(b, p), 1int,
{
    if p < 0 || p >= b.len() {
        Err(fail_at(FailKind::EofBeforeValue, p))
    } else if b[p] == 0x7b || b[p] == 0x5b {
        let inner = if b[p] == 0x7b {
            spp_members_from(b, p + 1, seq![], seq![])
        } else {
            spp_elements_from(b, p + 1, seq![], seq![])
        };
        match inner {
            Err(f) => Err(f),
            Ok((v, q, rest)) => Ok((plain_node(v, pending), q, rest)),
        }
    } else {
        match spp_scalar(b, p, pending) {
            Err(f) => Err(f),
            Ok((n, q)) => Ok((n, q, seq![])),
        }
    }
}

/// A value from `pos` on: comments first, then the value.
pub open spec fn spp_value_from(b: Seq<u8>, pos: int, pending: Seq<TriviaView>) -> Result<
    (NodeView, int, Seq<TriviaView>),
    ParseFail,
>
    decreases room(b, pos), 2int,
{
    proof {
        if pos >= 0 {
            lemma_skip_trivia_mono(b, pos, pending);
        }
    }
    match skip_trivia(b, pos, pending) {
        Err(f) => Err(f),
        Ok((p, pend)) => spp_value_at(b, p, pend),
    }
}

/// The rest of an array from `pos` on, after the elements `items`: each
/// element followed by a `,` is marked; at `]` the comments read since the
/// last element attach to it (they stay pending in an empty array).
pub open spec fn spp_elements_from(
    b: Seq<u8>,
    pos: int,
    pending: Seq<TriviaView>,
    items: Seq<NodeView>,
) -> Result<(ValueView, int, Seq<TriviaView>), ParseFail>
    decreases room(b, pos), 3int,
{
    proof {
        if pos >= 0 {
            lemma_skip_trivia_mono(b, pos, pending);
        }
    }
    match skip_trivia(b, pos, pending) {
        Err(f) => Err(f),
        Ok((p, pend)) => {
            if p >= b.len() {
                Err(fail_at(FailKind::EofInArrayValue, p))
            } else if b[p] == 0x5d {
                if items.len() > 0 {
                    let last = items.len() - 1;
                    Ok(
                        (
                            ValueView::Array(
                                items.update(last, with_comments(items[last], pend)),
                            ),
                            p + 1,
                            seq![],
                        ),
                    )
                } else {
                    Ok((ValueView::Array(items), p + 1, pend))
                }
            } else {
                match spp_value_at(b, p, pend) {
                    Err(f) => Err(f),
                    Ok((n, q, pend2)) => match skip_trivia(b, q, pend2) {
                        Err(f) => Err(f),
                        Ok((r, pend3)) => match after_element(
                            b,
                            r,
                            0x5d,
                            FailKind::ArrayComma(char_at(b, r)),
                        ) {
                            Err(f) => Err(f),
                            Ok(next) => if next <= pos || next > b.len() {
                                Err(fail_at(FailKind::Stalled, r))
                            } else {
                                spp_elements_from(
                                    b,
                                    next,
                                    pend3,
                                    items.push(marked(n, comma_at(b, r))),
                                )
                            },
                        },
                    },
                }
            }
        },
    }
}

/// A member whose key's opening quote is at `p`, with `key_trivia` the
/// comments before the key: the member, then, past the comments after its
/// value, where the input continues and the comments read there. The
/// comments between the key and the `:` go before the value.
pub open spec fn spp_member_at(b: Seq<u8>, p: int, key_trivia: Seq<TriviaView>) -> Result<
    (EntryView, int, Seq<TriviaView>),
    ParseFail,
>
    decreases room(b, p), 4int,
{
    proof {
        lemma_parse_string_advances(b, p);
    }
    match parse_string(b, p) {
        Err(f) => Err(f),
        Ok((key, k)) => {
            proof {
                lemma_colon_advances(b, k, seq![]);
            }
            match colon_from(b, k, seq![]) {
                Err(f) => Err(f),
                Ok((c, pend)) => match spp_value_from(b, c, pend) {
                    Err(f) => Err(f),
                    Ok((v, q, pend2)) => match skip_trivia(b, q, pend2) {
                        Err(f) => Err(f),
                        Ok((r, pend3)) => Ok((EntryView { key, key_trivia, value: v }, r, pend3)),
                    },
                },
            }
        },
    }
}

/// The rest of an object from `pos` on, after the members `entries` (kept
/// in source order); a member followed by a `,` has its value marked.
pub open spec fn spp_members_from(
    b: Seq<u8>,
    pos: int,
    pending: Seq<TriviaView>,
    entries: Seq<EntryView>,
) -> Result<(ValueView, int, Seq<TriviaView>), ParseFail>
    decreases room(b, pos), 5int,
{
    proof {
        if pos >= 0 {
            lemma_skip_trivia_mono(b, pos, pending);
        }
    }
    match skip_trivia(b, pos, pending) {
        Err(f) => Err(f),
        Ok((p, pend)) => {
            if p >= b.len() {
                Err(fail_at(FailKind::EofInObjectValue, p))
            } else if b[p] == 0x7d {
                if entries.len() > 0 {
                    let last = entries.len() - 1;
                    let e = entries[last];
                    Ok(
                        (
                            ValueView::Object(
                                entries.update(
                                    last,
                                    EntryView {
                                        key: e.key,
                                        key_trivia: e.key_trivia,
                                        value: with_comments(e.value, pend),
                                    },
                                ),
                            ),
                            p + 1,
                            seq![],
                        ),
                    )
                } else {
                    Ok((ValueView::Object(entries), p + 1, pend))
                }
            } else if b[p] != 0x22 {
                Err(fail_at(FailKind::StringKey, b.len() as int))
            } else {
                match spp_member_at(b, p, pend) {
                    Err(f) => Err(f),
                    Ok((entry, r, pend2)) => match after_element(
                        b,
                        r,
                        0x7d,
                        FailKind::ObjectComma(char_at(b, r)),
                    ) {
                        Err(f) => Err(f),
                        Ok(next) => if next <= pos || next > b.len() {
                            Err(fail_at(FailKind::Stalled, r))
                        } else {
                            spp_members_from(
                                b,
                                next,
                                pend2,
                                entries.push(
                                    EntryView {
                                        key: entry.key,
                                        key_trivia: entry.key_trivia,
                                        value: marked(entry.value, comma_at(b, r)),
                                    },
                                ),
                            )
                        },
                    },
                }
            }
        },
    }
}

/// A whole document: one value, then only whitespace and comments, which
/// attach to the value after its own.
pub open spec fn spp_document(b: Seq<u8>) -> Result<NodeView, ParseFail> {
    match spp_value_from(b, bom_end(b), seq![]) {
        Err(f) => Err(f),
        Ok((root, q, pend)) => match skip_trivia(b, q, pend) {
            Err(f) => Err(f),
            Ok((r, pend2)) => if r < b.len() {
                Err(fail_at(FailKind::TrailingCharacter(char_at(b, r)), r))
            } else {
                Ok(with_comments(root, pend2))
            },
        },
    }
}

/// Whether the message of a failure ends in its line and column: all do
/// but running out of input after a backslash, before a value, inside an
/// array or object, and before the `:` after a key.
pub open spec fn located(kind: FailKind) -> bool {
    !(kind is EofAfterBackslash || kind is EofBeforeValue || kind is EofInArrayValue
        || kind is EofInObjectValue || kind is ColonEof)
}

/// The message a failure is reported with: its text, then, where it is
/// located, ` at ` and the line and column of its offset.
pub open spec fn spp_message(b: Seq<u8>, f: ParseFail) -> Seq<char> {
    if located(f.kind) {
        fail_message(f.kind) + " at "@ + decimal(line_col(b, f.offset as int).0 as nat) + ":"@
            + decimal(line_col(b, f.offset as int).1 as nat)
    } else {
        fail_message(f.kind)
    }
}

/// Reading a string moves past its opening quote.
pub proof fn lemma_parse_string_advances(b: Seq<u8>, p: int)
    ensures
        p >= 0 ==> (parse_string(b, p) matches Ok((_, k)) ==> p < k),
{
    if p >= 0 {
        let start = p + 1;
        lemma_first_match(b, start, ByteClass::StringStop);
        let end = string_end_from(b, start);
        if !(end < b.len() && b[end] == 0x22) {
            lemma_string_rest_advances(b, end, text_of(b, start, end));
        }
    }
}

/// Looking for the `:` moves past it.
pub proof fn lemma_colon_advances(b: Seq<u8>, pos: int, pending: Seq<TriviaView>)
    ensures
        colon_from(b, pos, pending) matches Ok((c, _)) ==> pos < c,
    decreases b.len() + 4 - pos,
{
    if 0 <= pos < b.len() && b[pos] != 0x3a {
        if b[pos] == 0x2f && pos + 1 < b.len() {
            if b[pos + 1] == 0x2f {
                let end = newline_from(b, pos + 2);
                lemma_first_match(b, pos + 2, ByteClass::Newline);
                lemma_colon_advances(
                    b,
                    end,
                    pending.push(TriviaView::LineComment(text_of(b, pos + 2, end))),
                );
            } else if b[pos + 1] == 0x2a {
                let close = block_close(b, pos + 2);
                lemma_block_close(b, pos + 2);
                if close >= 0 {
                    lemma_colon_advances(
                        b,
                        close + 2,
                        pending.push(TriviaView::BlockComment(text_of(b, pos + 2, close))),
                    );
                }
            }
        } else if is_ws_byte(b[pos]) {
            lemma_colon_advances(b, pos + 1, pending);
        }
    }
}


/// What [`SinglePassParser::parse_value_impl`] reads: a value at the
/// position, skipping comments first when `consume_trivia` says so.
pub open spec fn spp_value_read(
    b: Seq<u8>,
    pos: int,
    pending: Seq<TriviaView>,
    consume_trivia: bool,
) -> Result<(NodeView, int, Seq<TriviaView>), ParseFail> {
    if consume_trivia {
        spp_value_from(b, pos, pending)
    } else {
        spp_value_at(b, pos, pending)
    }
}

/// Parses owned trees in one pass, with no nesting limit (see
/// [`spp_document`]).
pub struct SinglePassParser<'a> {
    core: ParserCore<'a>,
}

impl<'a> SinglePassParser<'a> {
    /// The cursor is well formed and at a character boundary.
    pub closed spec fn ready(&self) -> bool {
        self.core.wf() && self.core.at_boundary()
    }

    /// Nothing has been read yet.
    pub closed spec fn at_start(&self) -> bool {
        self.core.pos == 0 && self.core.pending_trivia@.len() == 0
    }

    /// The bytes being parsed.
    pub closed spec fn input_bytes(&self) -> Seq<u8> {
        self.core.bytes@
    }

    /// A parser at the start of `input`.
    pub fn new(input: &'a str) -> (p: Self)
        requires
            input.spec_bytes().len() <= isize::MAX,
        ensures
            p.ready(),
            p.input_bytes() == input.spec_bytes(),
            p.at_start(),
    {
        SinglePassParser { core: ParserCore::new(input) }
    }

    /// Reads a string whose opening quote is at the position (see
    /// [`parse_string`]).
    fn parse_string(&mut self) -> (r: Result<String, ParseFail>)
        requires
            old(self).ready(),
            old(self).core.pos < old(self).core.bytes@.len(),
            old(self).core.bytes@[old(self).core.pos as int] == 0x22,
        ensures
            final(self).core.input == old(self).core.input,
            final(self).core.bytes == old(self).core.bytes,
            final(self).core.pending_trivia == old(self).core.pending_trivia,
            match parse_string(old(self).core.bytes@, old(self).core.pos as int) {
                Ok((t, q)) => r matches Ok(s) && s@ == t && final(self).core.pos == q
                    && final(self).ready() && old(self).core.pos < q,
                Err(f) => r == Err::<String, ParseFail>(f),
            },
    {
        let ghost b = self.core.bytes@;
        let start = self.core.pos + 1;
        proof {
            text::lemma_str_bytes(self.core.input);
            text::lemma_after_ascii(b, start as int);
            crate::simd::lemma_first_match(b, start as int, crate::simd::ByteClass::StringStop);
        }
        let (end, saw_backslash) = self.core.find_string_terminator(start);
        if !saw_backslash && end < self.core.bytes.len() {
            match self.core.validate_no_control_chars(start, end) {
                Ok(()) => {},
                Err(f) => {
                    return Err(f);
                },
            }
            let piece = text::substr(self.core.input, start, end);
            let s = text::to_owned_string(piece);
            self.core.pos = end + 1;
            proof {
                text::lemma_after_ascii(b, end + 1);
            }
            return Ok(s);
        }
        self.core.pos = end;
        let r = self.core.parse_string_slow(start);
        proof {
            lemma_string_rest_advances(b, end as int, text_of(b, start as int, end as int));
        }
        r
    }

    /// Reads a number whose first byte is at the position (see
    /// [`parse_number`]).
    fn parse_number(&mut self) -> (r: Result<Number, ParseFail>)
        requires
            old(self).ready(),
            old(self).core.pos < old(self).core.bytes@.len(),
            is_digit(old(self).core.bytes@[old(self).core.pos as int]) || old(self).core.bytes@[old(
                self,
            ).core.pos as int] == 0x2d,
        ensures
            final(self).core.input == old(self).core.input,
            final(self).core.bytes == old(self).core.bytes,
            final(self).core.pending_trivia == old(self).core.pending_trivia,
            match parse_number(old(self).core.bytes@, old(self).core.pos as int) {
                Ok((m, q)) => r matches Ok(num) && crate::ast::number_view(num) == m
                    && final(self).core.pos == q && final(self).ready() && old(self).core.pos < q,
                Err(f) => r == Err::<Number, ParseFail>(f),
            },
    {
        let ghost b = self.core.bytes@;
        let content_start = self.core.pos;
        let (lex, has_frac_or_exp) = self.core.scan_number_lexeme();
        proof {
            crate::parser_core::lemma_number_end(b, content_start + 1);
            text::lemma_str_bytes(lex);
        }
        if !crate::parser::json_number_ok(lex.as_bytes()) {
            return Err(ParseFail { kind: FailKind::InvalidNumber, offset: content_start });
        }
        if !has_frac_or_exp {
            if let Some(n) = crate::parser_core::fast_parse_int(lex.as_bytes()) {
                return Ok(Number::Int(n));
            }
        }
        Ok(Number::Float(text::to_owned_string(lex)))
    }

    /// Reads a scalar whose first byte is at the position (see
    /// [`spp_scalar`]); `trivia` are the comments before it.
    fn parse_scalar(&mut self, trivia: Vec<Trivia>) -> (r: Result<Node, ParseFail>)
        requires
            old(self).ready(),
            old(self).core.pos < old(self).core.bytes@.len(),
        ensures
            final(self).core.input == old(self).core.input,
            final(self).core.bytes == old(self).core.bytes,
            final(self).core.pending_trivia == old(self).core.pending_trivia,
            match spp_scalar(old(self).core.bytes@, old(self).core.pos as int, trivia_view(trivia@)) {
                Ok((n, q)) => r matches Ok(node) && node@ == n && final(self).core.pos == q
                    && final(self).ready() && old(self).core.pos < q,
                Err(f) => r == Err::<Node, ParseFail>(f),
            },
    {
        let ghost b = self.core.bytes@;
        let p = self.core.pos;
        let c = self.core.bytes[p];
        proof {
            text::lemma_str_bytes(self.core.input);
        }
        if c == 0x22 {
            let s = match self.parse_string() {
                Ok(s) => s,
                Err(f) => {
                    return Err(f);
                },
            };
            Ok(Node { value: Value::String(s), trivia, comma: false })
        } else if (0x30 <= c && c <= 0x39) || c == 0x2d {
            let n = match self.parse_number() {
                Ok(n) => n,
                Err(f) => {
                    return Err(f);
                },
            };
            Ok(Node { value: Value::Number(n), trivia, comma: false })
        } else if c == 0x74 {
            let kw: [u8; 4] = [0x74, 0x72, 0x75, 0x65];
            if self.core.try_keyword(kw.as_slice()) {
                proof {
                    assert(b[p + 3] == b.subrange(p as int, p + 4)[3]);
                    text::lemma_after_ascii(b, p + 4);
                }
                Ok(Node { value: Value::Bool(true), trivia, comma: false })
            } else {
                Err(ParseFail { kind: FailKind::UnexpectedIdentifier, offset: p })
            }
        } else if c == 0x66 {
            let kw: [u8; 5] = [0x66, 0x61, 0x6c, 0x73, 0x65];
            if self.core.try_keyword(kw.as_slice()) {
                proof {
                    assert(b[p + 4] == b.subrange(p as int, p + 5)[4]);
                    text::lemma_after_ascii(b, p + 5);
                }
                Ok(Node { value: Value::Bool(false), trivia, comma: false })
            } else {
                Err(ParseFail { kind: FailKind::UnexpectedIdentifier, offset: p })
            }
        } else if c == 0x6e {
            let kw: [u8; 4] = [0x6e, 0x75, 0x6c, 0x6c];
            if self.core.try_keyword(kw.as_slice()) {
                proof {
                    assert(b[p + 3] == b.subrange(p as int, p + 4)[3]);
                    text::lemma_after_ascii(b, p + 4);
                }
                Ok(Node { value: Value::Null, trivia, comma: false })
            } else {
                Err(ParseFail { kind: FailKind::UnexpectedIdentifier, offset: p })
            }
        } else {
            let ch = self.core.char_at(p);
            Err(ParseFail { kind: FailKind::UnexpectedCharacter(ch), offset: p })
        }
    }

    /// Looks for the `:` after a key past comments and whitespace, leaving
    /// the position after it (see [`colon_from`]).
    fn consume_object_colon(&mut self) -> (r: Result<(), ParseFail>)
        requires
            old(self).ready(),
        ensures
            final(self).core.input == old(self).core.input,
            final(self).core.bytes == old(self).core.bytes,
            match colon_from(old(self).core.bytes@, old(self).core.pos as int, old(self).core.pending()) {
                Ok((c, pend)) => r is Ok && final(self).core.pos == c && final(self).core.pending()
                    == pend && final(self).ready(),
                Err(f) => r == Err::<(), ParseFail>(f) && final(self).ready() && old(self).core.pos
                    <= final(self).core.pos && old(self).core.pending().is_prefix_of(
                    final(self).core.pending(),
                ),
            },
            // Comments are only collected past a `/`: when none stands between
            // the key and where reading stopped, the pending comments are as
            // they were.
            (forall|k: int|
                old(self).core.pos <= k < final(self).core.pos ==> #[trigger] old(
                    self,
                ).core.bytes@[k] != 0x2f) ==> final(self).core.pending_trivia
                == old(self).core.pending_trivia,
            r matches Err(f) ==> (f.kind is BetweenKeyAndColon ==> final(self).core.pos == f.offset),
    {
        let bytes = self.core.bytes;
        let ghost b = bytes@;
        let ghost goal = colon_from(b, self.core.pos as int, self.core.pending());
        proof {
            text::lemma_str_bytes(self.core.input);
        }
        loop
            invariant
                self.ready(),
                self.core.bytes == bytes,
                bytes == old(self).core.bytes,
                self.core.input == old(self).core.input,
                b == bytes@,
                valid_utf8(b),
                goal == colon_from(b, self.core.pos as int, self.core.pending()),
                goal == colon_from(old(self).core.bytes@, old(self).core.pos as int, old(self).core.pending()),
                old(self).core.pos <= self.core.pos,
                old(self).core.pending().is_prefix_of(self.core.pending()),
                self.core.pending_trivia == old(self).core.pending_trivia || exists|k: int|
                    old(self).core.pos <= k < self.core.pos && #[trigger] b[k] == 0x2f,
            decreases bytes.len() - self.core.pos,
        {
            let pos = self.core.pos;
            if pos >= bytes.len() {
                return Err(ParseFail { kind: FailKind::ColonEof, offset: bytes.len() });
            }
            let c = bytes[pos];
            if c == 0x3a {
                self.core.pos = pos + 1;
                proof {
                    text::lemma_after_ascii(b, pos + 1);
                }
                return Ok(());
            } else if c == 0x2f {
                if pos + 1 < bytes.len() {
                    let next = bytes[pos + 1];
                    if next == 0x2f {
                        self.core.pos = pos + 1;
                        let comment = self.core.parse_line_comment();
                        let t = Trivia::LineComment(comment);
                        proof {
                            crate::parser_core::lemma_trivia_view_push(self.core.pending_trivia@, t);
                        }
                        self.core.pending_trivia.push(t);
                    } else if next == 0x2a {
                        self.core.pos = pos + 1;
                        match self.core.parse_block_comment() {
                            Ok(comment) => {
                                let t = Trivia::BlockComment(comment);
                                proof {
                                    crate::parser_core::lemma_trivia_view_push(
                                        self.core.pending_trivia@,
                                        t,
                                    );
                                }
                                self.core.pending_trivia.push(t);
                            },
                            Err(f) => {
                                return Err(f);
                            },
                        }
                    } else {
                        return Err(ParseFail { kind: FailKind::UnexpectedSlash, offset: pos });
                    }
                } else {
                    return Err(ParseFail { kind: FailKind::EofAfterSlash, offset: bytes.len() });
                }
            } else if c == 0x20 || c == 0x09 || c == 0x0a || c == 0x0d {
                proof {
                    text::lemma_after_ascii(b, pos + 1);
                }
                self.core.pos = pos + 1;
            } else {
                let ch = self.core.char_at(pos);
                return Err(ParseFail { kind: FailKind::BetweenKeyAndColon(ch), offset: pos });
            }
        }
    }
}


impl<'a> SinglePassParser<'a> {
    /// Reads a value (see [`spp_value_from`] and [`spp_value_at`]).
    fn parse_value_impl(&mut self, consume_trivia: bool) -> (r: Result<Node, ParseFail>)
        requires
            old(self).ready(),
        ensures
            final(self).core.input == old(self).core.input,
            final(self).core.bytes == old(self).core.bytes,
            match spp_value_read(
                old(self).core.bytes@,
                old(self).core.pos as int,
                old(self).core.pending(),
                consume_trivia,
            ) {
                Ok((n, q, pend)) => r matches Ok(node) && node@ == n && final(self).core.pos == q
                    && final(self).core.pending() == pend && final(self).ready() && old(
                    self,
                ).core.pos < q,
                Err(f) => r == Err::<Node, ParseFail>(f),
            },
        decreases room(old(self).core.bytes@, old(self).core.pos as int), if consume_trivia {
            2int
        } else {
            1int
        },
    {
        let ghost b = self.core.bytes@;
        if consume_trivia {
            proof {
                lemma_skip_trivia_mono(b, self.core.pos as int, self.core.pending());
            }
            match self.core.consume_trivia() {
                Ok(()) => {},
                Err(f) => {
                    return Err(f);
                },
            }
        }
        let p = self.core.pos;
        if p >= self.core.bytes.len() {
            return Err(ParseFail { kind: FailKind::EofBeforeValue, offset: p });
        }
        let token = self.core.bytes[p];
        let trivia = self.core.take_pending_trivia();
        proof {
            assert(self.core.pending() =~= seq![]);
        }
        if token == 0x7b || token == 0x5b {
            self.core.pos = p + 1;
            proof {
                text::lemma_str_bytes(self.core.input);
                text::lemma_after_ascii(b, p + 1);
            }
            let inner = if token == 0x7b {
                self.parse_object_value()
            } else {
                self.parse_array_value()
            };
            match inner {
                Ok(value) => Ok(Node { value, trivia, comma: false }),
                Err(f) => Err(f),
            }
        } else {
            self.parse_scalar(trivia)
        }
    }

    /// After an element and the comments after it: past a `,`, which marks
    /// `node`, at a `]`, or at the end (see [`after_element`]).
    fn consume_array_comma(&mut self, node: &mut Node) -> (r: Result<(), ParseFail>)
        requires
            old(self).ready(),
        ensures
            final(self).core.input == old(self).core.input,
            final(self).core.bytes == old(self).core.bytes,
            final(self).core.pending_trivia == old(self).core.pending_trivia,
            match after_element(
                old(self).core.bytes@,
                old(self).core.pos as int,
                0x5d,
                FailKind::ArrayComma(char_at(old(self).core.bytes@, old(self).core.pos as int)),
            ) {
                Ok(next) => r is Ok && final(self).core.pos == next && final(self).ready(),
                Err(f) => r == Err::<(), ParseFail>(f) && final(self).core.pos == old(
                    self,
                ).core.pos && final(self).ready(),
            },
            final(node)@ == marked(
                old(node)@,
                comma_at(old(self).core.bytes@, old(self).core.pos as int),
            ),
    {
        let p = self.core.pos;
        if p < self.core.bytes.len() {
            let c = self.core.bytes[p];
            if c == 0x2c {
                self.core.pos = p + 1;
                node.comma = true;
                proof {
                    text::lemma_str_bytes(self.core.input);
                    text::lemma_after_ascii(self.core.bytes@, p + 1);
                }
            } else if c != 0x5d {
                let ch = self.core.char_at(p);
                return Err(ParseFail { kind: FailKind::ArrayComma(ch), offset: p });
            }
        }
        Ok(())
    }

    /// After a member and the comments after it: past a `,`, which marks
    /// `node` (the member's value), at a `}`, or at the end (see
    /// [`after_element`]).
    fn consume_object_comma(&mut self, node: &mut Node) -> (r: Result<(), ParseFail>)
        requires
            old(self).ready(),
        ensures
            final(self).core.input == old(self).core.input,
            final(self).core.bytes == old(self).core.bytes,
            final(self).core.pending_trivia == old(self).core.pending_trivia,
            match after_element(
                old(self).core.bytes@,
                old(self).core.pos as int,
                0x7d,
                FailKind::ObjectComma(char_at(old(self).core.bytes@, old(self).core.pos as int)),
            ) {
                Ok(next) => r is Ok && final(self).core.pos == next && final(self).ready(),
                Err(f) => r == Err::<(), ParseFail>(f) && final(self).core.pos == old(
                    self,
                ).core.pos && final(self).ready(),
            },
            final(node)@ == marked(
                old(node)@,
                comma_at(old(self).core.bytes@, old(self).core.pos as int),
            ),
    {
        let p = self.core.pos;
        if p < self.core.bytes.len() {
            let c = self.core.bytes[p];
            if c == 0x2c {
                self.core.pos = p + 1;
                node.comma = true;
                proof {
                    text::lemma_str_bytes(self.core.input);
                    text::lemma_after_ascii(self.core.bytes@, p + 1);
                }
            } else if c != 0x7d {
                let ch = self.core.char_at(p);
                return Err(ParseFail { kind: FailKind::ObjectComma(ch), offset: p });
            }
        }
        Ok(())
    }

    /// Reads the rest of an array whose `[` is just before the position (see
    /// [`spp_elements_from`]).
    fn parse_array_value(&mut self) -> (r: Result<Value, ParseFail>)
        requires
            old(self).ready(),
        ensures
            final(self).core.input == old(self).core.input,
            final(self).core.bytes == old(self).core.bytes,
            match spp_elements_from(
                old(self).core.bytes@,
                old(self).core.pos as int,
                old(self).core.pending(),
                seq![],
            ) {
                Ok((v, q, pend)) => r matches Ok(val) && val@ == v && final(self).core.pos == q
                    && final(self).core.pending() == pend && final(self).ready() && old(
                    self,
                ).core.pos < q,
                Err(f) => r == Err::<Value, ParseFail>(f),
            },
        decreases room(old(self).core.bytes@, old(self).core.pos as int), 3int,
    {
        let ghost b = self.core.bytes@;
        let ghost input = self.core.input;
        let ghost start = self.core.pos as int;
        let ghost goal = spp_elements_from(b, start, self.core.pending(), seq![]);
        let mut elements: Vec<Node> = Vec::new();
        proof {
            assert(node_views(elements@) =~= seq![]);
            text::lemma_str_bytes(input);
        }
        loop
            invariant
                self.ready(),
                self.core.input == input,
                self.core.bytes@ == b,
                b == input.spec_bytes(),
                valid_utf8(b),
                input == old(self).core.input,
                self.core.bytes == old(self).core.bytes,
                b == old(self).core.bytes@,
                start == old(self).core.pos,
                goal == spp_elements_from(b, start, old(self).core.pending(), seq![]),
                start <= self.core.pos,
                goal == spp_elements_from(
                    b,
                    self.core.pos as int,
                    self.core.pending(),
                    node_views(elements@),
                ),
            decreases b.len() - self.core.pos,
        {
            let ghost pos1 = self.core.pos as int;
            let ghost iv = node_views(elements@);
            proof {
                lemma_skip_trivia_mono(b, pos1, self.core.pending());
            }
            match self.core.consume_trivia() {
                Ok(()) => {},
                Err(f) => {
                    return Err(f);
                },
            }
            let p = self.core.pos;
            if p >= self.core.bytes.len() {
                return Err(ParseFail { kind: FailKind::EofInArrayValue, offset: p });
            }
            if self.core.bytes[p] == 0x5d {
                self.core.pos = p + 1;
                proof {
                    text::lemma_after_ascii(b, p + 1);
                }
                if elements.len() > 0 {
                    let mut pending = self.core.take_pending_trivia();
                    let ghost pend_tr = pending@;
                    let mut last = elements.pop().unwrap();
                    let ghost last_tr = last.trivia@;
                    last.trivia.append(&mut pending);
                    elements.push(last);
                    proof {
                        crate::lazy_parser::lemma_trivia_view_concat(last_tr, pend_tr);
                        assert(node_views(elements@) =~= iv.update(
                            iv.len() - 1,
                            with_comments(iv[iv.len() - 1], trivia_view(pend_tr)),
                        ));
                        assert(self.core.pending() =~= seq![]);
                    }
                }
                proof {
                    lemma_array_value_view(elements);
                }
                return Ok(Value::Array(elements));
            }
            let mut node = match self.parse_value_impl(false) {
                Ok(n) => n,
                Err(f) => {
                    return Err(f);
                },
            };
            proof {
                lemma_skip_trivia_mono(b, self.core.pos as int, self.core.pending());
            }
            match self.core.consume_trivia() {
                Ok(()) => {},
                Err(f) => {
                    return Err(f);
                },
            }
            match self.consume_array_comma(&mut node) {
                Ok(()) => {},
                Err(f) => {
                    return Err(f);
                },
            }
            let ghost nv = node@;
            elements.push(node);
            proof {
                assert(node_views(elements@) =~= iv.push(nv));
            }
        }
    }

    /// Reads a member whose key's opening quote is at the position (see
    /// [`spp_member_at`]); `key_trivia` are the comments before the key.
    fn parse_member(&mut self, key_trivia: Vec<Trivia>) -> (r: Result<ObjectEntry, ParseFail>)
        requires
            old(self).ready(),
            old(self).core.pos < old(self).core.bytes@.len(),
            old(self).core.bytes@[old(self).core.pos as int] == 0x22,
            old(self).core.pending_trivia@.len() == 0,
        ensures
            final(self).core.input == old(self).core.input,
            final(self).core.bytes == old(self).core.bytes,
            match spp_member_at(
                old(self).core.bytes@,
                old(self).core.pos as int,
                trivia_view(key_trivia@),
            ) {
                Ok((e, q, pend)) => r matches Ok(entry) && entry@ == e && final(self).core.pos == q
                    && final(self).core.pending() == pend && final(self).ready() && old(
                    self,
                ).core.pos < q,
                Err(f) => r == Err::<ObjectEntry, ParseFail>(f),
            },
        decreases room(old(self).core.bytes@, old(self).core.pos as int), 4int,
    {
        let ghost b = self.core.bytes@;
        let key = match self.parse_string() {
            Ok(k) => k,
            Err(f) => {
                return Err(f);
            },
        };
        proof {
            assert(self.core.pending() =~= seq![]);
            lemma_colon_advances(b, self.core.pos as int, self.core.pending());
        }
        match self.consume_object_colon() {
            Ok(()) => {},
            Err(f) => {
                return Err(f);
            },
        }
        let value = match self.parse_value_impl(true) {
            Ok(n) => n,
            Err(f) => {
                return Err(f);
            },
        };
        proof {
            lemma_skip_trivia_mono(b, self.core.pos as int, self.core.pending());
        }
        match self.core.consume_trivia() {
            Ok(()) => {},
            Err(f) => {
                return Err(f);
            },
        }
        Ok(ObjectEntry { key, key_trivia, value })
    }

    /// Reads the rest of an object whose `{` is just before the position
    /// (see [`spp_members_from`]).
    fn parse_object_value(&mut self) -> (r: Result<Value, ParseFail>)
        requires
            old(self).ready(),
        ensures
            final(self).core.input == old(self).core.input,
            final(self).core.bytes == old(self).core.bytes,
            match spp_members_from(
                old(self).core.bytes@,
                old(self).core.pos as int,
                old(self).core.pending(),
                seq![],
            ) {
                Ok((v, q, pend)) => r matches Ok(val) && val@ == v && final(self).core.pos == q
                    && final(self).core.pending() == pend && final(self).ready() && old(
                    self,
                ).core.pos < q,
                Err(f) => r == Err::<Value, ParseFail>(f),
            },
        decreases room(old(self).core.bytes@, old(self).core.pos as int), 5int,
    {
        let ghost b = self.core.bytes@;
        let ghost input = self.core.input;
        let ghost start = self.core.pos as int;
        let ghost goal = spp_members_from(b, start, self.core.pending(), seq![]);
        let mut members: Vec<ObjectEntry> = Vec::new();
        proof {
            assert(entry_views(members@) =~= seq![]);
            text::lemma_str_bytes(input);
        }
        loop
            invariant
                self.ready(),
                self.core.input == input,
                self.core.bytes@ == b,
                b == input.spec_bytes(),
                valid_utf8(b),
                input == old(self).core.input,
                self.core.bytes == old(self).core.bytes,
                b == old(self).core.bytes@,
                start == old(self).core.pos,
                goal == spp_members_from(b, start, old(self).core.pending(), seq![]),
                start <= self.core.pos,
                goal == spp_members_from(
                    b,
                    self.core.pos as int,
                    self.core.pending(),
                    entry_views(members@),
                ),
            decreases b.len() - self.core.pos,
        {
            let ghost pos1 = self.core.pos as int;
            let ghost ev = entry_views(members@);
            proof {
                lemma_skip_trivia_mono(b, pos1, self.core.pending());
            }
            match self.core.consume_trivia() {
                Ok(()) => {},
                Err(f) => {
                    return Err(f);
                },
            }
            let p = self.core.pos;
            if p >= self.core.bytes.len() {
                return Err(ParseFail { kind: FailKind::EofInObjectValue, offset: p });
            }
            if self.core.bytes[p] == 0x7d {
                self.core.pos = p + 1;
                proof {
                    text::lemma_after_ascii(b, p + 1);
                }
                if members.len() > 0 {
                    let mut pending = self.core.take_pending_trivia();
                    let ghost pend_tr = pending@;
                    let mut last = members.pop().unwrap();
                    let ghost last_tr = last.value.trivia@;
                    last.value.trivia.append(&mut pending);
                    members.push(last);
                    proof {
                        crate::lazy_parser::lemma_trivia_view_concat(last_tr, pend_tr);
                        let e = ev[ev.len() - 1];
                        assert(entry_views(members@) =~= ev.update(
                            ev.len() - 1,
                            EntryView {
                                key: e.key,
                                key_trivia: e.key_trivia,
                                value: with_comments(e.value, trivia_view(pend_tr)),
                            },
                        ));
                        assert(self.core.pending() =~= seq![]);
                    }
                }
                proof {
                    lemma_object_value_view(members);
                }
                return Ok(Value::Object(members));
            }
            let key_trivia = self.core.take_pending_trivia();
            proof {
                assert(self.core.pending() =~= seq![]);
            }
            if self.core.bytes[p] != 0x22 {
                return Err(ParseFail { kind: FailKind::StringKey, offset: self.core.bytes.len() });
            }
            let mut entry = match self.parse_member(key_trivia) {
                Ok(e) => e,
                Err(f) => {
                    return Err(f);
                },
            };
            match self.consume_object_comma(&mut entry.value) {
                Ok(()) => {},
                Err(f) => {
                    return Err(f);
                },
            }
            let ghost em = entry@;
            members.push(entry);
            proof {
                assert(entry_views(members@) =~= ev.push(em));
            }
        }
    }

    /// The message a failure is reported with (see [`spp_message`]).
    fn error_message(&self, f: ParseFail) -> (m: String)
        requires
            self.core.wf(),
        ensures
            m@ == spp_message(self.core.bytes@, f),
    {
        let mut m = crate::parser_core::fail_message_text(f.kind);
        let is_located = match f.kind {
            FailKind::EofAfterBackslash => false,
            FailKind::EofBeforeValue => false,
            FailKind::EofInArrayValue => false,
            FailKind::EofInObjectValue => false,
            FailKind::ColonEof => false,
            _ => true,
        };
        if is_located {
            let (line, col) = self.core.position_from_offset(f.offset);
            text::append_str(&mut m, " at ");
            let l = text::usize_to_decimal(line);
            text::append_str(&mut m, l.as_str());
            text::append_str(&mut m, ":");
            let c = text::usize_to_decimal(col);
            text::append_str(&mut m, c.as_str());
        }
        m
    }

    /// Reads a whole document (see [`spp_document`]).
    fn parse_inner(&mut self) -> (r: Result<Node, ParseFail>)
        requires
            old(self).ready(),
            old(self).core.pos == 0,
            old(self).core.pending_trivia@.len() == 0,
        ensures
            final(self).core.input == old(self).core.input,
            final(self).core.bytes == old(self).core.bytes,
            match spp_document(old(self).core.bytes@) {
                Ok(n) => r matches Ok(node) && node@ == n,
                Err(f) => r == Err::<Node, ParseFail>(f),
            },
    {
        self.core.skip_bom();
        proof {
            assert(self.core.pending() =~= seq![]);
        }
        let mut node = match self.parse_value_impl(true) {
            Ok(n) => n,
            Err(f) => {
                return Err(f);
            },
        };
        match self.core.consume_trivia() {
            Ok(()) => {},
            Err(f) => {
                return Err(f);
            },
        }
        let mut pending = self.core.take_pending_trivia();
        let ghost pend_tr = pending@;
        let ghost node_tr = node.trivia@;
        node.trivia.append(&mut pending);
        proof {
            crate::lazy_parser::lemma_trivia_view_concat(node_tr, pend_tr);
        }
        if self.core.pos < self.core.bytes.len() {
            let ch = self.core.char_at(self.core.pos);
            return Err(ParseFail { kind: FailKind::TrailingCharacter(ch), offset: self.core.pos });
        }
        Ok(node)
    }

    /// Parses the whole input (see [`spp_document`]); a failure is
    /// reported by its message (see [`spp_message`]).
    pub fn parse(&mut self) -> (r: Result<Node, String>)
        requires
            old(self).ready(),
            old(self).at_start(),
        ensures
            match spp_document(old(self).input_bytes()) {
                Ok(n) => r matches Ok(node) && node@ == n,
                Err(f) => r matches Err(m) && m@ == spp_message(old(self).input_bytes(), f),
            },
    {
        match self.parse_inner() {
            Ok(node) => Ok(node),
            Err(f) => Err(self.error_message(f)),
        }
    }
}

} // verus!
