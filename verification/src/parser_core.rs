//! The cursor and tokenizer shared by the parsers: whitespace and comments,
//! string and number scanning, keywords, and line/column positions.

use vstd::prelude::*;
use vstd::string::StringSliceAdditionalSpecFns;
use vstd::utf8::*;
use crate::ast::{Trivia, TriviaView, trivia_view};
use crate::error::Error;
use crate::simd::{self, first_match, lemma_first_match, ByteClass, is_ws_byte, newline_from,
    string_end_from, ws_end_from};
use crate::text::{self, boundary_at, char_debug_text, lemma_str_bytes};
use crate::lazy_val::hex_digit;
use crate::parser::hex_at;

verus! {

broadcast use vstd::string::group_string_axioms;

/// Deepest nesting of arrays and objects the parsers accept.
pub const MAX_DEPTH: usize = 128;

// ---------------------------------------------------------------------------
// Failures
// ---------------------------------------------------------------------------

/// Why a parse stopped.
#[derive(Debug, Clone, Copy, PartialEq, Eq)]
pub enum FailKind {
    UnexpectedSlash,
    EofAfterSlash,
    UnterminatedBlock,
    UnterminatedString,
    TrailingBackslash,
    ControlChar,
    UnexpectedEof,
    DepthExceeded,
    ExpectedTrue,
    ExpectedFalse,
    ExpectedNull,
    UnexpectedToken(u8),
    EofInArray,
    ArraySeparator(u8),
    EofInObject,
    ExpectedKey,
    BadKeyEscape,
    ExpectedColon,
    ObjectSeparator(u8),
    TrailingContent,
    /// A step that consumed no input; the grammar never produces it.
    Stalled,
    // The failures of the parser that builds owned values.
    UnterminatedStringAtEnd,
    EofAfterBackslash,
    BadEscape,
    HexEof,
    HexDigit,
    LoneLowSurrogate,
    MissingLowSurrogate,
    BadLowSurrogate,
    InvalidNumber,
    EofBeforeValue,
    UnexpectedIdentifier,
    UnexpectedCharacter(char),
    ArrayComma(char),
    ObjectComma(char),
    ColonAfterKey,
    StringKey,
    EofInArrayValue,
    EofInObjectValue,
    TrailingCharacter(char),
    // The failures that only the single-pass parser reports.
    ColonEof,
    BetweenKeyAndColon(char),
    /// A key that an earlier member of the same object already has.
    DuplicateKey,
}

/// A failed parse: why, and at which byte offset of the input.
#[derive(Debug, Clone, Copy, PartialEq, Eq)]
pub struct ParseFail {
    pub kind: FailKind,
    pub offset: usize,
}

pub open spec fn fail_at(kind: FailKind, offset: int) -> ParseFail {
    ParseFail { kind, offset: offset as usize }
}

/// The message a failure is reported with (its position is reported apart).
pub open spec fn fail_message(kind: FailKind) -> Seq<char> {
    match kind {
        FailKind::UnexpectedSlash => "Unexpected character '/'"@,
        FailKind::EofAfterSlash => "Unexpected EOF after '/'"@,
        FailKind::UnterminatedBlock => "Unterminated block comment"@,
        FailKind::UnterminatedString => "unterminated string"@,
        FailKind::TrailingBackslash => "trailing backslash in string"@,
        FailKind::ControlChar => "Unescaped control character in string"@,
        FailKind::UnexpectedEof => "unexpected EOF"@,
        FailKind::DepthExceeded => "maximum nesting depth exceeded"@,
        FailKind::ExpectedTrue => "expected `true`"@,
        FailKind::ExpectedFalse => "expected `false`"@,
        FailKind::ExpectedNull => "expected `null`"@,
        FailKind::UnexpectedToken(b) => "unexpected token "@ + char_debug_text(b as char),
        FailKind::EofInArray => "unexpected EOF in array"@,
        FailKind::ArraySeparator(b) => "expected ',' or ']' in array, got "@ + char_debug_text(
            b as char,
        ),
        FailKind::EofInObject => "unexpected EOF in object"@,
        FailKind::ExpectedKey => "expected string key"@,
        FailKind::BadKeyEscape => "bad escape in key"@,
        FailKind::ExpectedColon => "expected ':' after key"@,
        FailKind::ObjectSeparator(b) => "expected ',' or '}' in object, got "@ + char_debug_text(
            b as char,
        ),
        FailKind::TrailingContent => "trailing content"@,
        FailKind::Stalled => "no progress"@,
        FailKind::UnterminatedStringAtEnd => "Unterminated string"@,
        FailKind::EofAfterBackslash => "Unexpected EOF after \\"@,
        FailKind::BadEscape => "Invalid escape sequence"@,
        FailKind::HexEof => "Unexpected EOF in unicode escape"@,
        FailKind::HexDigit => "Invalid unicode escape hex digit"@,
        FailKind::LoneLowSurrogate => "Unexpected low surrogate in unicode escape"@,
        FailKind::MissingLowSurrogate => "Expected low surrogate after high surrogate"@,
        FailKind::BadLowSurrogate => "Invalid low surrogate in unicode escape"@,
        FailKind::InvalidNumber => "Invalid number"@,
        FailKind::EofBeforeValue => "Unexpected EOF"@,
        FailKind::UnexpectedIdentifier => "Unexpected identifier"@,
        FailKind::UnexpectedCharacter(c) => "Unexpected character '"@ + seq![c] + "'"@,
        FailKind::ArrayComma(c) => "Expected ',' or ']' after array element, found '"@ + seq![c]
            + "'"@,
        FailKind::ObjectComma(c) => "Expected ',' or '}' after object member, found '"@ + seq![c]
            + "'"@,
        FailKind::ColonAfterKey => "Expected ':' after key"@,
        FailKind::StringKey => "Expected string key"@,
        FailKind::EofInArrayValue => "Unexpected EOF in array"@,
        FailKind::EofInObjectValue => "Unexpected EOF in object"@,
        FailKind::TrailingCharacter(c) => "Unexpected trailing content '"@ + seq![c] + "'"@,
        FailKind::ColonEof => "Unexpected EOF while looking for ':' after key"@,
        FailKind::BetweenKeyAndColon(c) => "Unexpected character '"@ + seq![c]
            + "' between key and ':'"@,
        FailKind::DuplicateKey => "duplicate key"@,
    }
}

/// The message text of a failure kind.
pub fn fail_message_text(kind: FailKind) -> (s: String)
    ensures
        s@ == fail_message(kind),
{
    match kind {
        FailKind::UnexpectedSlash => text::to_owned_string("Unexpected character '/'"),
        FailKind::EofAfterSlash => text::to_owned_string("Unexpected EOF after '/'"),
        FailKind::UnterminatedBlock => text::to_owned_string("Unterminated block comment"),
        FailKind::UnterminatedString => text::to_owned_string("unterminated string"),
        FailKind::TrailingBackslash => text::to_owned_string("trailing backslash in string"),
        FailKind::ControlChar => text::to_owned_string("Unescaped control character in string"),
        FailKind::UnexpectedEof => text::to_owned_string("unexpected EOF"),
        FailKind::DepthExceeded => text::to_owned_string("maximum nesting depth exceeded"),
        FailKind::ExpectedTrue => text::to_owned_string("expected `true`"),
        FailKind::ExpectedFalse => text::to_owned_string("expected `false`"),
        FailKind::ExpectedNull => text::to_owned_string("expected `null`"),
        FailKind::UnexpectedToken(b) => {
            let mut s = text::to_owned_string("unexpected token ");
            let d = text::debug_char(b as char);
            text::append_str(&mut s, d.as_str());
            s
        },
        FailKind::EofInArray => text::to_owned_string("unexpected EOF in array"),
        FailKind::ArraySeparator(b) => {
            let mut s = text::to_owned_string("expected ',' or ']' in array, got ");
            let d = text::debug_char(b as char);
            text::append_str(&mut s, d.as_str());
            s
        },
        FailKind::EofInObject => text::to_owned_string("unexpected EOF in object"),
        FailKind::ExpectedKey => text::to_owned_string("expected string key"),
        FailKind::BadKeyEscape => text::to_owned_string("bad escape in key"),
        FailKind::ExpectedColon => text::to_owned_string("expected ':' after key"),
        FailKind::ObjectSeparator(b) => {
            let mut s = text::to_owned_string("expected ',' or '}' in object, got ");
            let d = text::debug_char(b as char);
            text::append_str(&mut s, d.as_str());
            s
        },
        FailKind::TrailingContent => text::to_owned_string("trailing content"),
        FailKind::DuplicateKey => text::to_owned_string("duplicate key"),
        FailKind::Stalled => text::to_owned_string("no progress"),
        FailKind::UnterminatedStringAtEnd => text::to_owned_string("Unterminated string"),
        FailKind::EofAfterBackslash => text::to_owned_string("Unexpected EOF after \\"),
        FailKind::BadEscape => text::to_owned_string("Invalid escape sequence"),
        FailKind::HexEof => text::to_owned_string("Unexpected EOF in unicode escape"),
        FailKind::HexDigit => text::to_owned_string("Invalid unicode escape hex digit"),
        FailKind::LoneLowSurrogate => text::to_owned_string(
            "Unexpected low surrogate in unicode escape",
        ),
        FailKind::MissingLowSurrogate => text::to_owned_string(
            "Expected low surrogate after high surrogate",
        ),
        FailKind::BadLowSurrogate => text::to_owned_string("Invalid low surrogate in unicode escape"),
        FailKind::InvalidNumber => text::to_owned_string("Invalid number"),
        FailKind::EofBeforeValue => text::to_owned_string("Unexpected EOF"),
        FailKind::UnexpectedIdentifier => text::to_owned_string("Unexpected identifier"),
        FailKind::UnexpectedCharacter(c) => quoted_message("Unexpected character '", c),
        FailKind::ArrayComma(c) => quoted_message(
            "Expected ',' or ']' after array element, found '",
            c,
        ),
        FailKind::ObjectComma(c) => quoted_message(
            "Expected ',' or '}' after object member, found '",
            c,
        ),
        FailKind::ColonAfterKey => text::to_owned_string("Expected ':' after key"),
        FailKind::StringKey => text::to_owned_string("Expected string key"),
        FailKind::EofInArrayValue => text::to_owned_string("Unexpected EOF in array"),
        FailKind::EofInObjectValue => text::to_owned_string("Unexpected EOF in object"),
        FailKind::TrailingCharacter(c) => quoted_message("Unexpected trailing content '", c),
        FailKind::ColonEof => text::to_owned_string("Unexpected EOF while looking for ':' after key"),
        FailKind::BetweenKeyAndColon(c) => {
            let mut s = text::to_owned_string("Unexpected character '");
            text::push_char(&mut s, c);
            text::append_str(&mut s, "' between key and ':'");
            s
        },
    }
}

/// `head`, then `c`, then a closing `'`.
fn quoted_message(head: &str, c: char) -> (s: String)
    ensures
        s@ == head@ + seq![c] + "'"@,
{
    let mut s = text::to_owned_string(head);
    text::push_char(&mut s, c);
    text::append_str(&mut s, "'");
    s
}

// ---------------------------------------------------------------------------
// Positions
// ---------------------------------------------------------------------------

/// Line and column (both from 1) of byte offset `n`: one line more for every
/// line feed before `n`, and one column more for every other character that
/// starts before `n` since the last line feed.
pub open spec fn line_col(b: Seq<u8>, n: int) -> (int, int)
    decreases n,
{
    if n <= 0 {
        (1, 1)
    } else {
        let (l, c) = line_col(b, n - 1);
        if n - 1 >= b.len() {
            (l, c)
        } else if b[n - 1] == 0x0a {
            (l + 1, 1)
        } else if is_continuation_byte(b[n - 1]) {
            (l, c)
        } else {
            (l, c + 1)
        }
    }
}

/// One byte further: a line feed starts a new line, a continuation byte
/// leaves the position, any other byte moves one column on.
pub open spec fn byte_step(lc: (int, int), x: u8) -> (int, int) {
    if x == 0x0a {
        (lc.0 + 1, 1)
    } else if is_continuation_byte(x) {
        lc
    } else {
        (lc.0, lc.1 + 1)
    }
}

/// One character further: a line feed starts a new line, any other
/// character moves one column on.
pub open spec fn char_step(lc: (int, int), c: char) -> (int, int) {
    if c == '\n' {
        (lc.0 + 1, 1)
    } else {
        (lc.0, lc.1 + 1)
    }
}

/// Line and column after the bytes `b`, from `lc`.
pub open spec fn bytes_position(lc: (int, int), b: Seq<u8>) -> (int, int)
    decreases b.len(),
{
    if b.len() == 0 {
        lc
    } else {
        bytes_position(byte_step(lc, b[0]), b.drop_first())
    }
}

/// Line and column after the characters `cs`, from `lc`.
pub open spec fn chars_position(lc: (int, int), cs: Seq<char>) -> (int, int)
    decreases cs.len(),
{
    if cs.len() == 0 {
        lc
    } else {
        chars_position(char_step(lc, cs[0]), cs.drop_first())
    }
}

proof fn lemma_bytes_position_push(lc: (int, int), b: Seq<u8>, x: u8)
    ensures
        bytes_position(lc, b.push(x)) == byte_step(bytes_position(lc, b), x),
    decreases b.len(),
{
    if b.len() > 0 {
        assert(b.push(x)[0] == b[0]);
        assert(b.push(x).drop_first() =~= b.drop_first().push(x));
        lemma_bytes_position_push(byte_step(lc, b[0]), b.drop_first(), x);
    } else {
        assert(b.push(x)[0] == x);
        assert(b.push(x).drop_first() =~= Seq::<u8>::empty());
        assert(bytes_position(byte_step(lc, x), Seq::<u8>::empty()) == byte_step(lc, x));
    }
}

proof fn lemma_bytes_position_concat(lc: (int, int), x: Seq<u8>, y: Seq<u8>)
    ensures
        bytes_position(lc, x + y) == bytes_position(bytes_position(lc, x), y),
    decreases x.len(),
{
    if x.len() > 0 {
        assert((x + y).drop_first() =~= x.drop_first() + y);
        lemma_bytes_position_concat(byte_step(lc, x[0]), x.drop_first(), y);
    } else {
        assert(x + y =~= y);
    }
}

/// `line_col` is the byte walk over the prefix before the offset.
proof fn lemma_line_col_walk(b: Seq<u8>, n: int)
    requires
        0 <= n <= b.len(),
    ensures
        line_col(b, n) == bytes_position((1, 1), b.take(n)),
    decreases n,
{
    if n > 0 {
        lemma_line_col_walk(b, n - 1);
        assert(b.take(n) =~= b.take(n - 1).push(b[n - 1]));
        lemma_bytes_position_push((1, 1), b.take(n - 1), b[n - 1]);
    } else {
        assert(b.take(0) =~= Seq::<u8>::empty());
    }
}

/// The bytes of one character move the position as the character does.
proof fn lemma_scalar_position(lc: (int, int), c: char)
    ensures
        bytes_position(lc, encode_scalar(c as u32)) == char_step(lc, c),
{
    reveal_with_fuel(bytes_position, 5);
    let v = c as u32;
    assert(is_scalar(v));
    let e = encode_scalar(v);
    if has_width_1_encoding(v) {
        let b0 = leading_byte_width_1(v);
        assert(b0 == 0x0a <==> v == 0x0a) by (bit_vector)
            requires
                b0 == (v & 0x7F) as u8,
                v <= 0x7F,
        ;
        assert(b0 < 0x80) by (bit_vector)
            requires
                b0 == (v & 0x7F) as u8,
        ;
        assert(e.drop_first() =~= Seq::<u8>::empty());
        assert(v == 0x0a <==> c == '\n');
    } else {
        assert(v != 0x0a);
        assert(c != '\n');
        if has_width_2_encoding(v) {
            let b0 = leading_byte_width_2(v);
            let b1 = last_continuation_byte(v);
            assert(0xC0 <= b0 && b0 != 0x0a) by (bit_vector)
                requires
                    b0 == 0xC0 | ((v >> 6) & 0x1F) as u8,
            ;
            assert(0x80 <= b1 <= 0xBF) by (bit_vector)
                requires
                    b1 == 0x80 | (v & 0x3F) as u8,
            ;
            assert(e.drop_first() =~= seq![b1]);
            assert(e.drop_first().drop_first() =~= Seq::<u8>::empty());
        } else if has_width_3_encoding(v) {
            let b0 = leading_byte_width_3(v);
            let b1 = second_last_continuation_byte(v);
            let b2 = last_continuation_byte(v);
            assert(0xE0 <= b0) by (bit_vector)
                requires
                    b0 == 0xE0 | ((v >> 12) & 0x0F) as u8,
            ;
            assert(0x80 <= b1 <= 0xBF) by (bit_vector)
                requires
                    b1 == 0x80 | ((v >> 6) & 0x3F) as u8,
            ;
            assert(0x80 <= b2 <= 0xBF) by (bit_vector)
                requires
                    b2 == 0x80 | (v & 0x3F) as u8,
            ;
            assert(e.drop_first() =~= seq![b1, b2]);
            assert(e.drop_first().drop_first() =~= seq![b2]);
            assert(e.drop_first().drop_first().drop_first() =~= Seq::<u8>::empty());
        } else {
            let b0 = leading_byte_width_4(v);
            let b1 = third_last_continuation_byte(v);
            let b2 = second_last_continuation_byte(v);
            let b3 = last_continuation_byte(v);
            assert(0xF0 <= b0) by (bit_vector)
                requires
                    b0 == 0xF0 | ((v >> 18) & 0x7) as u8,
            ;
            assert(0x80 <= b1 <= 0xBF) by (bit_vector)
                requires
                    b1 == 0x80 | ((v >> 12) & 0x3F) as u8,
            ;
            assert(0x80 <= b2 <= 0xBF) by (bit_vector)
                requires
                    b2 == 0x80 | ((v >> 6) & 0x3F) as u8,
            ;
            assert(0x80 <= b3 <= 0xBF) by (bit_vector)
                requires
                    b3 == 0x80 | (v & 0x3F) as u8,
            ;
            assert(e.drop_first() =~= seq![b1, b2, b3]);
            assert(e.drop_first().drop_first() =~= seq![b2, b3]);
            assert(e.drop_first().drop_first().drop_first() =~= seq![b3]);
            assert(e.drop_first().drop_first().drop_first().drop_first()
                =~= Seq::<u8>::empty());
        }
    }
}

/// The bytes of a text move the position as its characters do.
proof fn lemma_encoded_position(lc: (int, int), cs: Seq<char>)
    ensures
        bytes_position(lc, encode_utf8(cs)) == chars_position(lc, cs),
    decreases cs.len(),
{
    if cs.len() > 0 {
        lemma_bytes_position_concat(lc, encode_scalar(cs[0] as u32), encode_utf8(cs.drop_first()));
        lemma_scalar_position(lc, cs[0]);
        lemma_encoded_position(char_step(lc, cs[0]), cs.drop_first());
    }
}

/// Positions count characters: at the offset where the first `k`
/// characters of a text end, [`line_col`] is one line more than the line
/// feeds among those characters, and one column more than the characters
/// after the last of them (all of them if there is none). At any offset past
/// the end it is the position after the whole text.
pub proof fn lemma_line_col_counts_chars(cs: Seq<char>, k: int)
    requires
        0 <= k <= cs.len(),
    ensures
        line_col(encode_utf8(cs), encode_utf8(cs.take(k)).len() as int) == chars_position(
            (1, 1),
            cs.take(k),
        ),
        forall|n: int| #![auto] n >= encode_utf8(cs).len() ==> line_col(encode_utf8(cs), n)
            == chars_position((1, 1), cs),
{
    let b = encode_utf8(cs);
    crate::parser::lemma_encode_concat(cs.take(k), cs.skip(k));
    assert(cs.take(k) + cs.skip(k) =~= cs);
    let n = encode_utf8(cs.take(k)).len() as int;
    assert(b.take(n) =~= encode_utf8(cs.take(k)));
    lemma_line_col_walk(b, n);
    lemma_encoded_position((1, 1), cs.take(k));
    assert forall|m: int| #![auto] m >= b.len() implies line_col(b, m) == chars_position((1, 1), cs) by {
        lemma_line_col_rest(b, b.len() as int, m);
        lemma_line_col_walk(b, b.len() as int);
        assert(b.take(b.len() as int) =~= b);
        lemma_encoded_position((1, 1), cs);
    }
}

pub proof fn lemma_line_col_bounds(b: Seq<u8>, n: int)
    ensures
        1 <= line_col(b, n).0 <= 1 + (if n < 0 { 0 } else { n }),
        1 <= line_col(b, n).1 <= 1 + (if n < 0 { 0 } else { n }),
    decreases n,
{
    if n > 0 {
        lemma_line_col_bounds(b, n - 1);
    }
}

// ---------------------------------------------------------------------------
// Comments and whitespace
// ---------------------------------------------------------------------------

/// Offset of the `*` of the first `*/` at or after `from`; -1 when there is
/// none.
pub open spec fn block_close(b: Seq<u8>, from: int) -> int
    decreases b.len() - from,
{
    if from < 0 || from + 1 >= b.len() {
        -1
    } else if b[from] == 0x2a && b[from + 1] == 0x2f {
        from
    } else {
        block_close(b, from + 1)
    }
}

pub proof fn lemma_block_close(b: Seq<u8>, from: int)
    requires
        0 <= from,
    ensures
        block_close(b, from) == -1 || (from <= block_close(b, from) && block_close(b, from) + 1
            < b.len() && b[block_close(b, from)] == 0x2a && b[block_close(b, from) + 1] == 0x2f),
        forall|i: int|
            from <= i && (block_close(b, from) == -1 || i < block_close(b, from)) && i + 1 < b.len()
                ==> !(#[trigger] b[i] == 0x2a && b[i + 1] == 0x2f),
    decreases b.len() - from,
{
    if from + 1 < b.len() && !(b[from] == 0x2a && b[from + 1] == 0x2f) {
        lemma_block_close(b, from + 1);
    }
}

/// Where a document starts: past a byte order mark (`EF BB BF`, the
/// character U+FEFF) that opens the input, else at its first byte.
pub open spec fn bom_end(b: Seq<u8>) -> int {
    if b.len() >= 3 && b[0] == 0xEF && b[1] == 0xBB && b[2] == 0xBF {
        3
    } else {
        0
    }
}

/// The text of the bytes `b[from..to]`.
pub open spec fn text_of(b: Seq<u8>, from: int, to: int) -> Seq<char> {
    decode_utf8(b.subrange(from, to))
}

/// Whitespace, `// line` and `/* block */` comments from `pos` on: where
/// they end, with the comments appended to `pending` in order. Whitespace is
/// the four JSON whitespace bytes (space, tab, line feed, carriage return)
/// and nothing else.
pub open spec fn skip_trivia(b: Seq<u8>, pos: int, pending: Seq<TriviaView>) -> Result<
    (int, Seq<TriviaView>),
    ParseFail,
>
    decreases b.len() + 4 - pos,
{
    if pos < 0 || pos >= b.len() {
        Ok((pos, pending))
    } else if is_ws_byte(b[pos]) {
        skip_trivia(b, pos + 1, pending)
    } else if b[pos] == 0x2f {
        if pos + 1 >= b.len() {
            Err(fail_at(FailKind::EofAfterSlash, b.len() as int))
        } else if b[pos + 1] == 0x2f {
            let end = newline_from(b, pos + 2);
            proof {
                lemma_first_match(b, pos + 2, ByteClass::Newline);
            }
            skip_trivia(
                b,
                end,
                pending.push(TriviaView::LineComment(text_of(b, pos + 2, end))),
            )
        } else if b[pos + 1] == 0x2a {
            let close = block_close(b, pos + 2);
            proof {
                lemma_block_close(b, pos + 2);
            }
            if close < 0 {
                Err(fail_at(FailKind::UnterminatedBlock, b.len() as int))
            } else {
                skip_trivia(
                    b,
                    close + 2,
                    pending.push(TriviaView::BlockComment(text_of(b, pos + 2, close))),
                )
            }
        } else {
            Err(fail_at(FailKind::UnexpectedSlash, pos))
        }
    } else {
        Ok((pos, pending))
    }
}

} // verus!

verus! {

/// Skipping trivia only starts to matter at a byte that is not JSON
/// whitespace.
pub proof fn lemma_skip_ws_first(b: Seq<u8>, pos: int, pending: Seq<TriviaView>)
    requires
        0 <= pos,
    ensures
        skip_trivia(b, pos, pending) == skip_trivia(b, ws_end_from(b, pos), pending),
    decreases b.len() - pos,
{
    if pos < b.len() && is_ws_byte(b[pos]) {
        lemma_skip_ws_first(b, pos + 1, pending);
        lemma_ws_end_step(b, pos);
    }
}

pub proof fn lemma_ws_end_step(b: Seq<u8>, pos: int)
    requires
        0 <= pos < b.len(),
        is_ws_byte(b[pos]),
    ensures
        ws_end_from(b, pos) == ws_end_from(b, pos + 1),
{
    assert(first_match(b, pos, ByteClass::NotWhitespace) == first_match(b, pos + 1, ByteClass::NotWhitespace));
    if pos + 1 >= b.len() {
        assert(first_match(b, pos + 1, ByteClass::NotWhitespace) == b.len());
    }
}

/// Whitespace ends at a character boundary.
pub proof fn lemma_ws_end_boundary(b: Seq<u8>, pos: int)
    requires
        valid_utf8(b),
        boundary_at(b, pos),
    ensures
        boundary_at(b, ws_end_from(b, pos)),
    decreases b.len() - pos,
{
    if pos < b.len() && is_ws_byte(b[pos]) {
        text::lemma_after_ascii(b, pos + 1);
        lemma_ws_end_boundary(b, pos + 1);
        lemma_ws_end_step(b, pos);
    }
}

/// Skipping trivia never moves backwards.
pub proof fn lemma_skip_trivia_mono(b: Seq<u8>, pos: int, pending: Seq<TriviaView>)
    requires
        0 <= pos,
    ensures
        skip_trivia(b, pos, pending) matches Ok((p, _)) ==> pos <= p,
    decreases b.len() + 4 - pos,
{
    if pos < b.len() {
        if is_ws_byte(b[pos]) {
            lemma_skip_trivia_mono(b, pos + 1, pending);
        } else if b[pos] == 0x2f && pos + 1 < b.len() {
            if b[pos + 1] == 0x2f {
                let end = newline_from(b, pos + 2);
                lemma_first_match(b, pos + 2, ByteClass::Newline);
                lemma_skip_trivia_mono(
                    b,
                    end,
                    pending.push(TriviaView::LineComment(text_of(b, pos + 2, end))),
                );
            } else if b[pos + 1] == 0x2a {
                let close = block_close(b, pos + 2);
                lemma_block_close(b, pos + 2);
                if close >= 0 {
                    lemma_skip_trivia_mono(
                        b,
                        close + 2,
                        pending.push(TriviaView::BlockComment(text_of(b, pos + 2, close))),
                    );
                }
            }
        }
    }
}

/// Skipping trivia moves forward, keeps the comments already pending in
/// front of those it adds, and stops at the end of the input or at a byte
/// that is neither JSON whitespace nor the `/` of a comment.
pub proof fn lemma_skip_trivia_stops(b: Seq<u8>, pos: int, pending: Seq<TriviaView>)
    requires
        0 <= pos <= b.len(),
    ensures
        skip_trivia(b, pos, pending) matches Ok((q, pend)) ==> {
            &&& pos <= q <= b.len()
            &&& pending.is_prefix_of(pend)
            &&& q == b.len() || (!is_ws_byte(b[q]) && b[q] != 0x2f)
        },
    decreases b.len() + 4 - pos,
{
    if pos < b.len() {
        if is_ws_byte(b[pos]) {
            lemma_skip_trivia_stops(b, pos + 1, pending);
        } else if b[pos] == 0x2f && pos + 1 < b.len() {
            if b[pos + 1] == 0x2f {
                let end = newline_from(b, pos + 2);
                lemma_first_match(b, pos + 2, ByteClass::Newline);
                let p2 = pending.push(TriviaView::LineComment(text_of(b, pos + 2, end)));
                lemma_skip_trivia_stops(b, end, p2);
                if let Ok((q, pend)) = skip_trivia(b, end, p2) {
                    assert(pending.is_prefix_of(pend)) by {
                        assert forall|k: int| 0 <= k < pending.len() implies pend[k] == pending[k] by {
                            assert(p2[k] == pending[k]);
                        }
                    }
                }
            } else if b[pos + 1] == 0x2a {
                let close = block_close(b, pos + 2);
                lemma_block_close(b, pos + 2);
                if close >= 0 {
                    let p2 = pending.push(TriviaView::BlockComment(text_of(b, pos + 2, close)));
                    lemma_skip_trivia_stops(b, close + 2, p2);
                    if let Ok((q, pend)) = skip_trivia(b, close + 2, p2) {
                        assert(pending.is_prefix_of(pend)) by {
                            assert forall|k: int| 0 <= k < pending.len() implies pend[k]
                                == pending[k] by {
                                assert(p2[k] == pending[k]);
                            }
                        }
                    }
                }
            }
        }
    }
}

/// The byte length of the character that starts at `pos`, at least one.
pub open spec fn char_width(b: Seq<u8>, pos: int) -> int {
    let l = length_of_first_scalar(b.subrange(pos, b.len() as int));
    if l >= 1 {
        l as int
    } else {
        1
    }
}

/// Like [`skip_trivia`], but whitespace is any character with the Unicode
/// White_Space property (see [`text::unicode_whitespace`]), as
/// `char::is_whitespace` decides: the rule of the lazy reader.
pub open spec fn skip_trivia_wide(b: Seq<u8>, pos: int, pending: Seq<TriviaView>) -> Result<
    (int, Seq<TriviaView>),
    ParseFail,
>
    decreases b.len() + 4 - pos,
{
    if pos < 0 || pos >= b.len() {
        Ok((pos, pending))
    } else if is_ws_byte(b[pos]) {
        skip_trivia_wide(b, pos + 1, pending)
    } else if b[pos] >= 0x80 && text::unicode_whitespace(crate::parser::char_at(b, pos)) {
        skip_trivia_wide(b, pos + char_width(b, pos), pending)
    } else if b[pos] == 0x2f {
        if pos + 1 >= b.len() {
            Err(fail_at(FailKind::EofAfterSlash, b.len() as int))
        } else if b[pos + 1] == 0x2f {
            let end = newline_from(b, pos + 2);
            proof {
                lemma_first_match(b, pos + 2, ByteClass::Newline);
            }
            skip_trivia_wide(
                b,
                end,
                pending.push(TriviaView::LineComment(text_of(b, pos + 2, end))),
            )
        } else if b[pos + 1] == 0x2a {
            let close = block_close(b, pos + 2);
            proof {
                lemma_block_close(b, pos + 2);
            }
            if close < 0 {
                Err(fail_at(FailKind::UnterminatedBlock, b.len() as int))
            } else {
                skip_trivia_wide(
                    b,
                    close + 2,
                    pending.push(TriviaView::BlockComment(text_of(b, pos + 2, close))),
                )
            }
        } else {
            Err(fail_at(FailKind::UnexpectedSlash, pos))
        }
    } else {
        Ok((pos, pending))
    }
}

/// Skipping trivia (the lazy reader's rule) never moves backwards.
pub proof fn lemma_skip_trivia_wide_mono(b: Seq<u8>, pos: int, pending: Seq<TriviaView>)
    requires
        0 <= pos,
    ensures
        skip_trivia_wide(b, pos, pending) matches Ok((p, _)) ==> pos <= p,
    decreases b.len() + 4 - pos,
{
    if pos < b.len() {
        if is_ws_byte(b[pos]) {
            lemma_skip_trivia_wide_mono(b, pos + 1, pending);
        } else if b[pos] >= 0x80 && text::unicode_whitespace(crate::parser::char_at(b, pos)) {
            lemma_skip_trivia_wide_mono(b, pos + char_width(b, pos), pending);
        } else if b[pos] == 0x2f && pos + 1 < b.len() {
            if b[pos + 1] == 0x2f {
                let end = newline_from(b, pos + 2);
                lemma_first_match(b, pos + 2, ByteClass::Newline);
                lemma_skip_trivia_wide_mono(
                    b,
                    end,
                    pending.push(TriviaView::LineComment(text_of(b, pos + 2, end))),
                );
            } else if b[pos + 1] == 0x2a {
                let close = block_close(b, pos + 2);
                lemma_block_close(b, pos + 2);
                if close >= 0 {
                    lemma_skip_trivia_wide_mono(
                        b,
                        close + 2,
                        pending.push(TriviaView::BlockComment(text_of(b, pos + 2, close))),
                    );
                }
            }
        }
    }
}

/// Viewing a list with one more comment views one more comment.
pub proof fn lemma_trivia_view_push(v: Seq<Trivia>, t: Trivia)
    ensures
        trivia_view(v.push(t)) == trivia_view(v).push(t@),
{
    assert(trivia_view(v.push(t)) =~= trivia_view(v).push(t@));
}

/// The cursor of a parse: the input, the position reached, and the comments
/// read but not yet attached to a value.
pub struct ParserCore<'a> {
    pub input: &'a str,
    pub bytes: &'a [u8],
    pub pos: usize,
    pub pending_trivia: Vec<Trivia>,
}

impl<'a> ParserCore<'a> {
    /// The cursor reads `input`, whose bytes it holds, and no input is longer
    /// than a Rust allocation can be.
    pub open spec fn wf(&self) -> bool {
        &&& self.bytes@ == self.input.spec_bytes()
        &&& self.bytes@.len() <= isize::MAX
    }

    pub open spec fn pending(&self) -> Seq<TriviaView> {
        trivia_view(self.pending_trivia@)
    }

    /// The position is within the input, at the start of a character.
    pub open spec fn at_boundary(&self) -> bool {
        boundary_at(self.bytes@, self.pos as int)
    }

    /// Steps over a byte order mark that opens the input (see [`bom_end`]).
    pub fn skip_bom(&mut self)
        requires
            old(self).wf(),
            old(self).at_boundary(),
            old(self).pos == 0,
        ensures
            final(self).wf(),
            final(self).at_boundary(),
            final(self).input == old(self).input,
            final(self).bytes == old(self).bytes,
            final(self).pending_trivia == old(self).pending_trivia,
            final(self).pos == bom_end(old(self).bytes@),
    {
        let bytes = self.bytes;
        if bytes.len() >= 3 && bytes[0] == 0xEF && bytes[1] == 0xBB && bytes[2] == 0xBF {
            proof {
                lemma_str_bytes(self.input);
                text::lemma_next_boundary(bytes@, 0);
            }
            self.pos = 3;
        }
    }

    pub fn new(input: &'a str) -> (c: Self)
        requires
            input.spec_bytes().len() <= isize::MAX,
        ensures
            c.wf(),
            c.input == input,
            c.pos == 0,
            c.pending_trivia@.len() == 0,
            c.at_boundary(),
    {
        let c = ParserCore { input, bytes: input.as_bytes(), pos: 0, pending_trivia: Vec::new() };
        proof {
            lemma_str_bytes(input);
            if input.spec_bytes().len() > 0 {
                assert(valid_first_scalar(input.spec_bytes()));
            }
        }
        c
    }

    /// Hands over the pending comments and leaves none.
    pub fn take_pending_trivia(&mut self) -> (t: Vec<Trivia>)
        ensures
            t@ == old(self).pending_trivia@,
            final(self).pending_trivia@.len() == 0,
            final(self).input == old(self).input,
            final(self).bytes == old(self).bytes,
            final(self).pos == old(self).pos,
    {
        if self.pending_trivia.len() == 0 {
            Vec::new()
        } else {
            let mut t = Vec::new();
            std::mem::swap(&mut t, &mut self.pending_trivia);
            t
        }
    }

    /// Line and column of a byte offset (see [`line_col`]).
    pub fn position_from_offset(&self, offset: usize) -> (r: (usize, usize))
        requires
            self.wf(),
        ensures
            r.0 == line_col(self.bytes@, offset as int).0,
            r.1 == line_col(self.bytes@, offset as int).1,
    {
        let bytes = self.bytes;
        let mut line: usize = 1;
        let mut col: usize = 1;
        let mut i: usize = 0;
        while i < offset && i < bytes.len()
            invariant
                i <= bytes@.len() <= isize::MAX,
                i <= offset,
                line == line_col(bytes@, i as int).0,
                col == line_col(bytes@, i as int).1,
            decreases bytes.len() - i,
        {
            proof {
                lemma_line_col_bounds(bytes@, i as int);
            }
            let b = bytes[i];
            if b == 0x0a {
                line += 1;
                col = 1;
            } else if !(0x80 <= b && b <= 0xbf) {
                col += 1;
            }
            i += 1;
        }
        proof {
            lemma_line_col_rest(bytes@, i as int, offset as int);
        }
        (line, col)
    }

    /// Skips JSON whitespace bytes.
    pub fn skip_whitespace_fast(&mut self)
        ensures
            final(self).pos == ws_end_from(old(self).bytes@, old(self).pos as int),
            final(self).input == old(self).input,
            final(self).bytes == old(self).bytes,
            final(self).pending_trivia == old(self).pending_trivia,
    {
        if self.pos < self.bytes.len() {
            let b = self.bytes[self.pos];
            if b != 0x20 && b != 0x0a && b != 0x0d && b != 0x09 {
                return;
            }
        }
        self.pos = simd::skip_ws(self.bytes, self.pos);
    }

    /// Skips whitespace and comments, collecting the comments as pending
    /// (see [`skip_trivia`]).
    pub fn consume_trivia(&mut self) -> (r: Result<(), ParseFail>)
        requires
            old(self).wf(),
            old(self).at_boundary(),
        ensures
            final(self).input == old(self).input,
            final(self).bytes == old(self).bytes,
            match skip_trivia(old(self).bytes@, old(self).pos as int, old(self).pending()) {
                Ok((p, pend)) => r is Ok && final(self).pos == p && final(self).pending() == pend
                    && final(self).at_boundary(),
                Err(f) => r == Err::<(), ParseFail>(f),
            },
    {
        proof {
            lemma_skip_ws_first(self.bytes@, self.pos as int, self.pending());
            lemma_str_bytes(self.input);
            lemma_first_match(self.bytes@, self.pos as int, ByteClass::NotWhitespace);
            lemma_ws_end_boundary(self.bytes@, self.pos as int);
        }
        self.skip_whitespace_fast();
        if self.pos < self.bytes.len() {
            let b = self.bytes[self.pos];
            if b == 0x2f || b > 127 {
                return self.consume_trivia_slow();
            }
        }
        Ok(())
    }

    /// Reads a line comment whose second `/` is at the position: its text runs
    /// to the next line feed (not included) or the end.
    pub fn parse_line_comment(&mut self) -> (c: String)
        requires
            old(self).wf(),
            old(self).pos < old(self).bytes@.len(),
            old(self).bytes@[old(self).pos as int] == 0x2f,
        ensures
            final(self).input == old(self).input,
            final(self).bytes == old(self).bytes,
            final(self).pending_trivia == old(self).pending_trivia,
            final(self).pos == newline_from(old(self).bytes@, old(self).pos + 1),
            c@ == text_of(old(self).bytes@, old(self).pos + 1, final(self).pos as int),
            final(self).at_boundary(),
            old(self).pos < final(self).pos <= old(self).bytes@.len(),
    {
        self.pos += 1;
        let start = self.pos;
        self.pos = simd::find_newline(self.bytes, self.pos);
        proof {
            let b = self.bytes@;
            lemma_str_bytes(self.input);
            lemma_first_match(b, start as int, ByteClass::Newline);
            text::lemma_after_ascii(b, start as int);
            if self.pos < b.len() {
                text::lemma_next_boundary(b, self.pos as int);
            }
        }
        let piece = text::substr(self.input, start, self.pos);
        text::to_owned_string(piece)
    }

    /// Reads a block comment whose `*` is at the position: its text runs to
    /// the next `*/`, which is consumed too.
    pub fn parse_block_comment(&mut self) -> (r: Result<String, ParseFail>)
        requires
            old(self).wf(),
            old(self).pos < old(self).bytes@.len(),
            old(self).bytes@[old(self).pos as int] == 0x2a,
        ensures
            final(self).input == old(self).input,
            final(self).bytes == old(self).bytes,
            final(self).pending_trivia == old(self).pending_trivia,
            block_close(old(self).bytes@, old(self).pos + 1) < 0 ==> r == Err::<String, ParseFail>(
                fail_at(FailKind::UnterminatedBlock, old(self).bytes@.len() as int),
            ),
            block_close(old(self).bytes@, old(self).pos + 1) >= 0 ==> r is Ok,
            r matches Ok(c) ==> c@ == text_of(
                old(self).bytes@,
                old(self).pos + 1,
                block_close(old(self).bytes@, old(self).pos + 1),
            ),
            r is Ok ==> final(self).pos == block_close(old(self).bytes@, old(self).pos + 1) + 2
                && final(self).at_boundary() && old(self).pos < final(self).pos <= old(self).bytes@.len(),
            r is Err ==> final(self).pos == old(self).bytes@.len() && final(self).at_boundary(),
    {
        self.pos += 1;
        let start = self.pos;
        let bytes = self.bytes;
        proof {
            lemma_block_close(bytes@, start as int);
        }
        while self.pos < bytes.len()
            invariant
                start <= self.pos <= bytes.len(),
                self.bytes == bytes,
                bytes == old(self).bytes,
                start == old(self).pos + 1,
                1 <= start,
                bytes@[start - 1] == 0x2a,
                bytes@.len() <= isize::MAX,
                bytes@ == self.input.spec_bytes(),
                self.input == old(self).input,
                self.pending_trivia == old(self).pending_trivia,
                block_close(bytes@, start as int) == -1 || self.pos <= block_close(bytes@, start as int),
                forall|i: int| start <= i < self.pos && i + 1 < bytes@.len() ==> !(#[trigger] bytes@[i] == 0x2a && bytes@[i + 1] == 0x2f),
            decreases bytes.len() - self.pos,
        {
            proof {
                lemma_block_close(bytes@, start as int);
            }
            if bytes[self.pos] == 0x2a && self.pos + 1 < bytes.len() && bytes[self.pos + 1] == 0x2f {
                let end = self.pos;
                self.pos += 2;
                proof {
                    let b = bytes@;
                    lemma_str_bytes(self.input);
                    text::lemma_after_ascii(b, start as int);
                    text::lemma_after_ascii(b, end + 1);
                    text::lemma_after_ascii(b, end + 2);
                    let close = block_close(b, start as int);
                    assert(close != -1);
                    assert(close == end);
                }
                let piece = text::substr(self.input, start, end);
                return Ok(text::to_owned_string(piece));
            }
            self.pos += 1;
        }
        proof {
            lemma_block_close(bytes@, start as int);
            let close = block_close(bytes@, start as int);
            if close != -1 {
                assert(bytes@[close] == 0x2a);
            }
            assert(close == -1);
        }
        Err(ParseFail { kind: FailKind::UnterminatedBlock, offset: bytes.len() })
    }

    /// Skips whitespace and comments under the lazy reader's rule, where
    /// whitespace is any `char::is_whitespace` character (see
    /// [`skip_trivia_wide`]), collecting the comments as pending.
    pub fn consume_trivia_wide(&mut self) -> (r: Result<(), ParseFail>)
        requires
            old(self).wf(),
            old(self).at_boundary(),
        ensures
            final(self).input == old(self).input,
            final(self).bytes == old(self).bytes,
            match skip_trivia_wide(old(self).bytes@, old(self).pos as int, old(self).pending()) {
                Ok((p, pend)) => r is Ok && final(self).pos == p && final(self).pending() == pend
                    && final(self).at_boundary(),
                Err(f) => r == Err::<(), ParseFail>(f),
            },
    {
        let bytes = self.bytes;
        let ghost b = bytes@;
        let ghost goal = skip_trivia_wide(b, self.pos as int, self.pending());
        proof {
            lemma_str_bytes(self.input);
        }
        while self.pos < bytes.len()
            invariant
                self.wf(),
                self.at_boundary(),
                self.bytes == bytes,
                bytes == old(self).bytes,
                self.input == old(self).input,
                b == bytes@,
                valid_utf8(b),
                goal == skip_trivia_wide(b, self.pos as int, self.pending()),
                goal == skip_trivia_wide(
                    old(self).bytes@,
                    old(self).pos as int,
                    old(self).pending(),
                ),
            ensures
                self.wf(),
                self.at_boundary(),
                self.bytes == bytes,
                self.input == old(self).input,
                goal == Ok::<(int, Seq<TriviaView>), ParseFail>((self.pos as int, self.pending())),
            decreases bytes.len() - self.pos,
        {
            let c = bytes[self.pos];
            if c == 0x2f {
                if self.pos + 1 < bytes.len() {
                    let next = bytes[self.pos + 1];
                    if next == 0x2f {
                        self.pos += 1;
                        let comment = self.parse_line_comment();
                        let t = Trivia::LineComment(comment);
                        proof {
                            lemma_trivia_view_push(self.pending_trivia@, t);
                        }
                        self.pending_trivia.push(t);
                    } else if next == 0x2a {
                        self.pos += 1;
                        match self.parse_block_comment() {
                            Ok(comment) => {
                                let t = Trivia::BlockComment(comment);
                                proof {
                                    lemma_trivia_view_push(self.pending_trivia@, t);
                                }
                                self.pending_trivia.push(t);
                            },
                            Err(e) => {
                                return Err(e);
                            },
                        }
                    } else {
                        return Err(ParseFail { kind: FailKind::UnexpectedSlash, offset: self.pos });
                    }
                } else {
                    return Err(ParseFail { kind: FailKind::EofAfterSlash, offset: bytes.len() });
                }
            } else if c == 0x20 || c == 0x0a || c == 0x0d || c == 0x09 {
                proof {
                    text::lemma_after_ascii(b, self.pos + 1);
                }
                self.pos += 1;
            } else if c >= 0x80 {
                let p = self.pos;
                proof {
                    text::lemma_next_boundary(b, p as int);
                }
                let ch = self.char_at(p);
                if text::is_whitespace(ch) {
                    let (_, w) = text::decode_scalar_at(bytes, p);
                    self.pos = p + w;
                } else {
                    break;
                }
            } else {
                break;
            }
        }
        Ok(())
    }

    fn consume_trivia_slow(&mut self) -> (r: Result<(), ParseFail>)
        requires
            old(self).wf(),
            old(self).at_boundary(),
        ensures
            final(self).input == old(self).input,
            final(self).bytes == old(self).bytes,
            match skip_trivia(old(self).bytes@, old(self).pos as int, old(self).pending()) {
                Ok((p, pend)) => r is Ok && final(self).pos == p && final(self).pending() == pend
                    && final(self).at_boundary(),
                Err(f) => r == Err::<(), ParseFail>(f),
            },
    {
        let bytes = self.bytes;
        let ghost b = bytes@;
        let ghost goal = skip_trivia(b, self.pos as int, self.pending());
        proof {
            lemma_str_bytes(self.input);
        }
        while self.pos < bytes.len()
            invariant
                self.wf(),
                self.at_boundary(),
                self.bytes == bytes,
                bytes == old(self).bytes,
                self.input == old(self).input,
                b == bytes@,
                valid_utf8(b),
                goal == skip_trivia(b, self.pos as int, self.pending()),
                goal == skip_trivia(old(self).bytes@, old(self).pos as int, old(self).pending()),
            ensures
                self.wf(),
                self.at_boundary(),
                self.bytes == bytes,
                self.input == old(self).input,
                goal == Ok::<(int, Seq<TriviaView>), ParseFail>((self.pos as int, self.pending())),
            decreases bytes.len() - self.pos,
        {
            let c = bytes[self.pos];
            if c == 0x2f {
                if self.pos + 1 < bytes.len() {
                    let next = bytes[self.pos + 1];
                    if next == 0x2f {
                        self.pos += 1;
                        let comment = self.parse_line_comment();
                        let t = Trivia::LineComment(comment);
                        proof {
                            lemma_trivia_view_push(self.pending_trivia@, t);
                        }
                        self.pending_trivia.push(t);
                    } else if next == 0x2a {
                        self.pos += 1;
                        match self.parse_block_comment() {
                            Ok(comment) => {
                                let t = Trivia::BlockComment(comment);
                                proof {
                                    lemma_trivia_view_push(self.pending_trivia@, t);
                                }
                                self.pending_trivia.push(t);
                            },
                            Err(e) => {
                                return Err(e);
                            },
                        }
                    } else {
                        return Err(ParseFail { kind: FailKind::UnexpectedSlash, offset: self.pos });
                    }
                } else {
                    return Err(ParseFail { kind: FailKind::EofAfterSlash, offset: bytes.len() });
                }
            } else if c == 0x20 || c == 0x0a || c == 0x0d || c == 0x09 {
                proof {
                    text::lemma_after_ascii(b, self.pos + 1);
                }
                self.pos += 1;
            } else {
                break;
            }
        }
        Ok(())
    }
}

/// Nothing changes line and column past the end of the input.
pub proof fn lemma_line_col_rest(b: Seq<u8>, i: int, n: int)
    requires
        0 <= i <= n,
        i == n || i >= b.len(),
    ensures
        line_col(b, n) == line_col(b, i),
    decreases n - i,
{
    if n > i {
        lemma_line_col_rest(b, i, n - 1);
    }
}

} // verus!

verus! {

// ---------------------------------------------------------------------------
// Strings, numbers, keywords
// ---------------------------------------------------------------------------

/// The bytes a number lexeme is made of: digits, `.`, `e`, `E`, `+`, `-`.
pub open spec fn is_number_byte(c: u8) -> bool {
    (0x30 <= c <= 0x39) || c == 0x2e || c == 0x65 || c == 0x45 || c == 0x2b || c == 0x2d
}

pub open spec fn is_frac_or_exp_byte(c: u8) -> bool {
    c == 0x2e || c == 0x65 || c == 0x45 || c == 0x2b || c == 0x2d
}

/// Where a run of number bytes starting at `from` ends.
pub open spec fn number_end(b: Seq<u8>, from: int) -> int
    decreases b.len() - from,
{
    if from < b.len() && is_number_byte(b[from]) {
        number_end(b, from + 1)
    } else {
        from
    }
}

pub proof fn lemma_number_end(b: Seq<u8>, from: int)
    requires
        0 <= from <= b.len(),
    ensures
        from <= number_end(b, from) <= b.len(),
        number_end(b, from) < b.len() ==> !is_number_byte(b[number_end(b, from)]),
        forall|i: int| from <= i < number_end(b, from) ==> is_number_byte(#[trigger] b[i]),
    decreases b.len() - from,
{
    if from < b.len() && is_number_byte(b[from]) {
        lemma_number_end(b, from + 1);
    }
}

/// Where the string whose contents start at `i` closes (the offset of its
/// closing `"`). A backslash skips the byte after it, and `\u` skips the
/// four bytes after the `u` as well, whatever they are.
pub open spec fn scan_string_end(b: Seq<u8>, i: int) -> Result<int, ParseFail>
    decreases b.len() + 6 - i,
{
    if i < 0 {
        Err(fail_at(FailKind::UnterminatedString, b.len() as int))
    } else {
        let j = string_end_from(b, i);
        proof {
            lemma_first_match(b, i, ByteClass::StringStop);
        }
        if j >= b.len() {
            Err(fail_at(FailKind::UnterminatedString, b.len() as int))
        } else if b[j] == 0x22 {
            Ok(j)
        } else if j + 1 >= b.len() {
            Err(fail_at(FailKind::TrailingBackslash, b.len() as int))
        } else if b[j + 1] == 0x75 {
            scan_string_end(b, j + 6)
        } else {
            scan_string_end(b, j + 2)
        }
    }
}

pub proof fn lemma_scan_string_end(b: Seq<u8>, i: int)
    ensures
        scan_string_end(b, i) matches Ok(e) ==> i <= e < b.len() && b[e] == 0x22,
    decreases b.len() + 6 - i,
{
    if i >= 0 {
        let j = string_end_from(b, i);
        lemma_first_match(b, i, ByteClass::StringStop);
        if j < b.len() && b[j] != 0x22 && j + 1 < b.len() {
            if b[j + 1] == 0x75 {
                lemma_scan_string_end(b, j + 6);
            } else {
                lemma_scan_string_end(b, j + 2);
            }
        }
    }
}

/// Offset of the first byte below 0x20 in `b[from..to]`, or -1.
pub open spec fn first_control(b: Seq<u8>, from: int, to: int) -> int
    decreases to - from,
{
    if from >= to {
        -1
    } else if b[from] < 0x20 {
        from
    } else {
        first_control(b, from + 1, to)
    }
}

impl<'a> ParserCore<'a> {
    /// Reads a number lexeme: the byte at the position (a digit or `-`) and
    /// the number bytes after it. Also answers whether any byte after the
    /// first is `.`, `e`, `E`, `+` or `-`.
    pub fn scan_number_lexeme(&mut self) -> (r: (&'a str, bool))
        requires
            old(self).wf(),
            old(self).pos < old(self).bytes@.len(),
            old(self).bytes@[old(self).pos as int] < 0x80,
        ensures
            final(self).input == old(self).input,
            final(self).bytes == old(self).bytes,
            final(self).pending_trivia == old(self).pending_trivia,
            final(self).pos == number_end(old(self).bytes@, old(self).pos + 1),
            r.0.spec_bytes() == old(self).bytes@.subrange(old(self).pos as int, final(self).pos as int),
            r.1 == exists|i: int|
                old(self).pos < i < final(self).pos && is_frac_or_exp_byte(
                    #[trigger] old(self).bytes@[i],
                ),
            final(self).at_boundary(),
    {
        let start = self.pos;
        let mut pos = start + 1;
        let bytes = self.bytes;
        let mut has_frac_or_exp = false;
        proof {
            lemma_number_end(bytes@, pos as int);
        }
        while pos < bytes.len()
            invariant
                start < pos <= bytes@.len(),
                number_end(bytes@, start + 1) == number_end(bytes@, pos as int),
                forall|i: int| start < i < pos ==> is_number_byte(#[trigger] bytes@[i]),
                has_frac_or_exp == exists|i: int|
                    start < i < pos && is_frac_or_exp_byte(#[trigger] bytes@[i]),
            ensures
                start < pos <= bytes@.len(),
                number_end(bytes@, start + 1) == pos,
                has_frac_or_exp == exists|i: int|
                    start < i < pos && is_frac_or_exp_byte(#[trigger] bytes@[i]),
            decreases bytes.len() - pos,
        {
            let nc = bytes[pos];
            if 0x30 <= nc && nc <= 0x39 {
                pos += 1;
            } else if nc == 0x2e || nc == 0x65 || nc == 0x45 || nc == 0x2b || nc == 0x2d {
                has_frac_or_exp = true;
                pos += 1;
            } else {
                break;
            }
        }
        self.pos = pos;
        proof {
            let b = bytes@;
            lemma_str_bytes(self.input);
            assert(boundary_at(b, start as int));
            if pos < b.len() {
                text::lemma_after_ascii(b, pos as int);
            }
        }
        let lex = text::substr(self.input, start, pos);
        (lex, has_frac_or_exp)
    }

    /// From `start`, the first `"` or `\`, and whether it is a `\` (false
    /// when there is neither).
    pub fn find_string_terminator(&self, start: usize) -> (r: (usize, bool))
        ensures
            r.0 == string_end_from(self.bytes@, start as int),
            r.1 == (r.0 < self.bytes@.len() && self.bytes@[r.0 as int] == 0x5c),
    {
        let end = simd::find_string_end(self.bytes, start);
        if end >= self.bytes.len() {
            return (end, false);
        }
        (end, self.bytes[end] == 0x5c)
    }

    /// Walks a string's contents from `start` past its escapes to the
    /// closing `"` (see [`scan_string_end`]).
    pub fn scan_string_skip_escapes(&self, start: usize) -> (r: Result<usize, ParseFail>)
        requires
            self.wf(),
        ensures
            match scan_string_end(self.bytes@, start as int) {
                Ok(e) => r == Ok::<usize, ParseFail>(e as usize),
                Err(f) => r == Err::<usize, ParseFail>(f),
            },
    {
        let bytes = self.bytes;
        let mut i = start;
        loop
            invariant
                bytes == self.bytes,
                bytes@.len() <= isize::MAX,
                i == start || i <= bytes@.len() + 5,
                scan_string_end(bytes@, start as int) == scan_string_end(bytes@, i as int),
            decreases bytes@.len() + 6 - i,
        {
            let j = simd::find_string_end(bytes, i);
            proof {
                lemma_first_match(bytes@, i as int, ByteClass::StringStop);
            }
            if j >= bytes.len() {
                return Err(ParseFail { kind: FailKind::UnterminatedString, offset: bytes.len() });
            }
            if bytes[j] == 0x22 {
                return Ok(j);
            }
            if j + 1 >= bytes.len() {
                return Err(ParseFail { kind: FailKind::TrailingBackslash, offset: bytes.len() });
            }
            if bytes[j + 1] == 0x75 {
                i = j + 6;
            } else {
                i = j + 2;
            }
        }
    }

    /// Fails at the first byte below 0x20 in `bytes[start..end]`.
    pub fn validate_no_control_chars(&self, start: usize, end: usize) -> (r: Result<(), ParseFail>)
        requires
            start <= end <= self.bytes@.len(),
        ensures
            first_control(self.bytes@, start as int, end as int) == -1 ==> r is Ok,
            first_control(self.bytes@, start as int, end as int) != -1 ==> r == Err::<(), ParseFail>(
                fail_at(FailKind::ControlChar, first_control(self.bytes@, start as int, end as int)),
            ),
    {
        let mut i = start;
        while i < end
            invariant
                start <= i <= end <= self.bytes@.len(),
                first_control(self.bytes@, start as int, end as int) == first_control(self.bytes@, i as int, end as int),
            decreases end - i,
        {
            if self.bytes[i] < 0x20 {
                return Err(ParseFail { kind: FailKind::ControlChar, offset: i });
            }
            i += 1;
        }
        Ok(())
    }

    /// Consumes `kw` when the input continues with exactly those bytes.
    pub fn try_keyword(&mut self, kw: &[u8]) -> (r: bool)
        requires
            old(self).wf(),
            old(self).pos <= old(self).bytes@.len(),
            kw@.len() <= isize::MAX,
        ensures
            final(self).input == old(self).input,
            final(self).bytes == old(self).bytes,
            final(self).pending_trivia == old(self).pending_trivia,
            r == (old(self).pos + kw@.len() <= old(self).bytes@.len() && old(self).bytes@.subrange(
                old(self).pos as int,
                old(self).pos + kw@.len(),
            ) == kw@),
            r ==> final(self).pos == old(self).pos + kw@.len(),
            !r ==> final(self).pos == old(self).pos,
    {
        let end = self.pos + kw.len();
        if end > self.bytes.len() {
            return false;
        }
        let mut i: usize = 0;
        while i < kw.len()
            invariant
                self.pos + kw@.len() == end <= self.bytes@.len(),
                i <= kw@.len(),
                forall|k: int| 0 <= k < i ==> self.bytes@[self.pos + k] == kw@[k],
            decreases kw.len() - i,
        {
            if self.bytes[self.pos + i] != kw[i] {
                proof {
                    assert(self.bytes@.subrange(self.pos as int, end as int)[i as int] != kw@[i as int]);
                }
                return false;
            }
            i += 1;
        }
        proof {
            assert(self.bytes@.subrange(self.pos as int, end as int) =~= kw@);
        }
        self.pos = end;
        true
    }
}

} // verus!

verus! {

// ---------------------------------------------------------------------------
// Integer lexemes
// ---------------------------------------------------------------------------

pub open spec fn is_digit(c: u8) -> bool {
    0x30 <= c <= 0x39
}

pub open spec fn all_digits(d: Seq<u8>) -> bool {
    forall|i: int| 0 <= i < d.len() ==> is_digit(#[trigger] d[i])
}

/// The value of a run of decimal digits.
pub open spec fn digits_value(d: Seq<u8>) -> nat
    decreases d.len(),
{
    if d.len() == 0 {
        0
    } else {
        digits_value(d.drop_last()) * 10 + (d.last() - 0x30) as nat
    }
}

/// The integer that `b` writes when it is an optional `-` followed by at
/// least one digit and nothing else.
pub open spec fn integer_lexeme(b: Seq<u8>) -> Option<int> {
    if b.len() > 0 && b[0] == 0x2d {
        let d = b.drop_first();
        if d.len() > 0 && all_digits(d) {
            Some(-(digits_value(d) as int))
        } else {
            None
        }
    } else if b.len() > 0 && all_digits(b) {
        Some(digits_value(b) as int)
    } else {
        None
    }
}

/// The `i64` an integer lexeme denotes, when it fits.
pub open spec fn integer_lexeme_i64(b: Seq<u8>) -> Option<i64> {
    match integer_lexeme(b) {
        Some(v) => if i64::MIN <= v <= i64::MAX {
            Some(v as i64)
        } else {
            None
        },
        None => None,
    }
}

proof fn lemma_digits_step(d: Seq<u8>, k: int)
    requires
        0 <= k < d.len(),
    ensures
        digits_value(d.take(k + 1)) == digits_value(d.take(k)) * 10 + (d[k] - 0x30) as nat,
{
    assert(d.take(k + 1).drop_last() =~= d.take(k));
}

proof fn lemma_digits_prefix_le(d: Seq<u8>, k: int)
    requires
        0 <= k <= d.len(),
        all_digits(d),
    ensures
        digits_value(d.take(k)) <= digits_value(d),
    decreases d.len(),
{
    if k < d.len() {
        let e = d.drop_last();
        assert(all_digits(e));
        lemma_digits_prefix_le(e, k);
        assert(e.take(k) =~= d.take(k));
    } else {
        assert(d.take(k) =~= d);
    }
}

/// Where the digits of a lexeme start: after a leading `-`, if any.
pub open spec fn digits_start(b: Seq<u8>) -> int {
    if b.len() > 0 && b[0] == 0x2d {
        1
    } else {
        0
    }
}

/// The value of a sign and digits: the digits' value, negated after a `-`.
pub open spec fn signed_digits_value(b: Seq<u8>) -> int {
    if digits_start(b) == 1 {
        -(digits_value(b.skip(1)) as int)
    } else {
        digits_value(b) as int
    }
}

/// An integer lexeme is read as [`fast_parse_int`] reads it: there is a
/// result exactly when the bytes are an optional `-` followed by one or more
/// ASCII digits (leading zeros allowed; no `+`, no other byte) whose value
/// lies in the `i64` range, and then the result is that value. In
/// particular the empty lexeme, a lone `-` and a leading `+` have none.
pub proof fn lemma_integer_lexeme_i64(b: Seq<u8>)
    ensures
        integer_lexeme_i64(b) is Some <==> {
            &&& b.len() > digits_start(b)
            &&& all_digits(b.skip(digits_start(b)))
            &&& i64::MIN <= signed_digits_value(b) <= i64::MAX
        },
        integer_lexeme_i64(b) matches Some(n) ==> n == signed_digits_value(b),
        b.len() == 0 ==> integer_lexeme_i64(b) is None,
        b =~= seq![0x2du8] ==> integer_lexeme_i64(b) is None,
        b.len() > 0 && b[0] == 0x2b ==> integer_lexeme_i64(b) is None,
{
    assert(b.skip(0) =~= b);
    if b.len() > 0 {
        assert(b.skip(1) =~= b.drop_first());
        if b[0] == 0x2b {
            assert(!is_digit(b[0]));
        }
    }
}

/// The `i64` a lexeme of an optional `-` and digits denotes; `None` for any
/// other lexeme and for a value out of range.
pub fn fast_parse_int(bytes: &[u8]) -> (r: Option<i64>)
    ensures
        r == integer_lexeme_i64(bytes@),
{
    if bytes.len() == 0 {
        return None;
    }
    let neg = bytes[0] == 0x2d;
    let first: usize = if neg { 1 } else { 0 };
    let ghost d = bytes@.subrange(first as int, bytes@.len() as int);
    if first >= bytes.len() {
        proof {
            assert(bytes@.drop_first().len() == 0);
        }
        return None;
    }
    let mut n: i64 = 0;
    let mut i = first;
    while i < bytes.len()
        invariant
            first <= i <= bytes@.len(),
            first < bytes@.len(),
            d == bytes@.subrange(first as int, bytes@.len() as int),
            neg == (bytes@[0] == 0x2d),
            first == (if neg { 1usize } else { 0usize }),
            all_digits(d.take(i - first)),
            neg ==> n == -(digits_value(d.take(i - first)) as int),
            !neg ==> n == digits_value(d.take(i - first)),
        decreases bytes.len() - i,
    {
        let c = bytes[i];
        let ghost k = (i - first) as int;
        assert(d[k] == c);
        if !(0x30 <= c && c <= 0x39) {
            proof {
                assert(!all_digits(d));
                if neg {
                    assert(bytes@.drop_first() =~= d);
                } else {
                    assert(bytes@ =~= d);
                }
            }
            return None;
        }
        let dgt = (c - 0x30) as i64;
        proof {
            lemma_digits_step(d, k);
            assert(all_digits(d.take(k + 1)));
        }
        match n.checked_mul(10) {
            Some(m) => {
                let next = if neg { m.checked_sub(dgt) } else { m.checked_add(dgt) };
                match next {
                    Some(v) => {
                        n = v;
                    },
                    None => {
                        proof {
                            lemma_out_of_range(bytes@, d, neg, k + 1);
                        }
                        return None;
                    },
                }
            },
            None => {
                proof {
                    lemma_out_of_range(bytes@, d, neg, k + 1);
                }
                return None;
            },
        }
        i += 1;
    }
    proof {
        assert(d.take(i - first) =~= d);
        if neg {
            assert(bytes@.drop_first() =~= d);
        } else {
            assert(bytes@ =~= d);
        }
    }
    Some(n)
}

proof fn lemma_out_of_range(b: Seq<u8>, d: Seq<u8>, neg: bool, k: int)
    requires
        b.len() > 0,
        neg == (b[0] == 0x2d),
        d == b.subrange(if neg { 1int } else { 0int }, b.len() as int),
        0 < k <= d.len(),
        neg ==> -(digits_value(d.take(k)) as int) < i64::MIN,
        !neg ==> digits_value(d.take(k)) > i64::MAX,
    ensures
        integer_lexeme_i64(b) is None,
{
    if all_digits(d) {
        lemma_digits_prefix_le(d, k);
    }
    if neg {
        assert(b.drop_first() =~= d);
    } else {
        assert(b =~= d);
    }
}

} // verus!

verus! {

// ---------------------------------------------------------------------------
// Messages that carry their position
// ---------------------------------------------------------------------------

/// ` at ` starts at `i` in `m`.
pub open spec fn marker_at(m: Seq<char>, i: int) -> bool {
    0 <= i && i + 4 <= m.len() && m[i] == ' ' && m[i + 1] == 'a' && m[i + 2] == 't' && m[i + 3]
        == ' '
}

/// The last start of ` at ` in `m` at or before `i`, or -1.
pub open spec fn last_marker(m: Seq<char>, i: int) -> int
    decreases i + 1,
{
    if i < 0 {
        -1
    } else if marker_at(m, i) {
        i
    } else {
        last_marker(m, i - 1)
    }
}

/// The first `c` in `s`, or -1.
pub open spec fn first_index_of(s: Seq<char>, c: char, from: int) -> int
    decreases s.len() - from,
{
    if from < 0 || from >= s.len() {
        -1
    } else if s[from] == c {
        from
    } else {
        first_index_of(s, c, from + 1)
    }
}

pub open spec fn is_digit_char(c: char) -> bool {
    '0' <= c <= '9'
}

/// The value of a run of decimal digit characters.
pub open spec fn char_digits_value(d: Seq<char>) -> nat
    decreases d.len(),
{
    if d.len() == 0 {
        0
    } else {
        char_digits_value(d.drop_last()) * 10 + (d.last() as nat - 48) as nat
    }
}

/// The text after an optional leading `+`.
pub open spec fn unsigned_digits(s: Seq<char>) -> Seq<char> {
    if s.len() > 0 && s[0] == '+' {
        s.drop_first()
    } else {
        s
    }
}

pub open spec fn all_digit_chars(d: Seq<char>) -> bool {
    forall|i: int| 0 <= i < d.len() ==> is_digit_char(#[trigger] d[i])
}

/// What `str::parse::<usize>` accepts: an optional `+`, then at least one
/// digit and nothing else, with a value that fits in a `usize`.
pub open spec fn parse_usize_text(s: Seq<char>) -> Option<nat> {
    let d = unsigned_digits(s);
    if d.len() > 0 && all_digit_chars(d) && char_digits_value(d) <= usize::MAX {
        Some(char_digits_value(d))
    } else {
        None
    }
}

/// A message that ends in ` at {line}:{col}` split into its head and the
/// position: the last ` at `, then the text up to the first `:` and the text
/// after it, both read as `usize`.
pub open spec fn split_position(m: Seq<char>) -> Option<(nat, nat, Seq<char>)> {
    let i = last_marker(m, m.len() - 4);
    if i < 0 {
        None
    } else {
        let tail = m.subrange(i + 4, m.len() as int);
        let c = first_index_of(tail, ':', 0);
        if c < 0 {
            None
        } else {
            match (
                parse_usize_text(tail.subrange(0, c)),
                parse_usize_text(tail.subrange(c + 1, tail.len() as int)),
            ) {
                (Some(l), Some(col)) => Some((l, col, m.subrange(0, i))),
                _ => None,
            }
        }
    }
}

proof fn lemma_last_marker(m: Seq<char>, i: int)
    ensures
        last_marker(m, i) == -1 || (0 <= last_marker(m, i) <= i && marker_at(m, last_marker(m, i))),
    decreases i + 1,
{
    if i >= 0 && !marker_at(m, i) {
        lemma_last_marker(m, i - 1);
    }
}

proof fn lemma_first_index_of(s: Seq<char>, c: char, from: int)
    ensures
        first_index_of(s, c, from) == -1 || (from <= first_index_of(s, c, from) < s.len()
            && s[first_index_of(s, c, from)] == c),
    decreases s.len() - from,
{
    if 0 <= from < s.len() && s[from] != c {
        lemma_first_index_of(s, c, from + 1);
    }
}

/// Reads `chars[from..to]` as `str::parse::<usize>` does.
pub(crate) fn parse_usize_chars(chars: &Vec<char>, from: usize, to: usize) -> (r: Option<usize>)
    requires
        from <= to <= chars@.len(),
    ensures
        r matches Some(v) ==> parse_usize_text(chars@.subrange(from as int, to as int)) == Some(
            v as nat,
        ),
        r is None ==> parse_usize_text(chars@.subrange(from as int, to as int)) is None,
{
    let ghost s = chars@.subrange(from as int, to as int);
    let mut i = from;
    if i < to && chars[i] == '+' {
        i += 1;
    }
    let ghost d = chars@.subrange(i as int, to as int);
    proof {
        if from < to && chars@[from as int] == '+' {
            assert(d =~= s.drop_first());
        } else {
            assert(d =~= s);
        }
    }
    if i >= to {
        return None;
    }
    let start = i;
    let mut v: usize = 0;
    while i < to
        invariant
            from <= start <= i <= to <= chars@.len(),
            start < to,
            d == chars@.subrange(start as int, to as int),
            s == chars@.subrange(from as int, to as int),
            d == unsigned_digits(s),
            forall|k: int| 0 <= k < i - start ==> is_digit_char(#[trigger] d[k]),
            v == char_digits_value(d.take(i - start)),
        decreases to - i,
    {
        let c = chars[i];
        let ghost k = i - start;
        assert(d[k] == c);
        if !('0' <= c && c <= '9') {
            proof {
                assert(!is_digit_char(d[k]));
                assert(!all_digit_chars(d));
            }
            return None;
        }
        proof {
            assert(d.take(k + 1).drop_last() =~= d.take(k));
            assert(d.take(k + 1).last() == c);
            assert(char_digits_value(d.take(k + 1)) == v * 10 + (c as nat - 48));
        }
        let dv = (c as u32 - 48) as usize;
        match v.checked_mul(10) {
            Some(m) => match m.checked_add(dv) {
                Some(n) => {
                    v = n;
                },
                None => {
                    proof {
                        lemma_char_digits_out_of_range(d, k + 1);
                    }
                    return None;
                },
            },
            None => {
                proof {
                    lemma_char_digits_out_of_range(d, k + 1);
                }
                return None;
            },
        }
        i += 1;
    }
    proof {
        assert(d.take(i - start) =~= d);
    }
    Some(v)
}

proof fn lemma_char_digits_prefix_le(d: Seq<char>, k: int)
    requires
        0 <= k <= d.len(),
        forall|i: int| 0 <= i < d.len() ==> is_digit_char(#[trigger] d[i]),
    ensures
        char_digits_value(d.take(k)) <= char_digits_value(d),
    decreases d.len(),
{
    if k < d.len() {
        let e = d.drop_last();
        assert forall|i: int| 0 <= i < e.len() implies is_digit_char(#[trigger] e[i]) by {
            assert(e[i] == d[i]);
        }
        lemma_char_digits_prefix_le(e, k);
        assert(e.take(k) =~= d.take(k));
    } else {
        assert(d.take(k) =~= d);
    }
}

proof fn lemma_char_digits_out_of_range(d: Seq<char>, k: int)
    requires
        0 < k <= d.len(),
        char_digits_value(d.take(k)) > usize::MAX,
    ensures
        !(all_digit_chars(d) && char_digits_value(d) <= usize::MAX),
{
    if all_digit_chars(d) {
        lemma_char_digits_prefix_le(d, k);
    }
}

impl<'a> ParserCore<'a> {
    /// A parse error from a message that may end in ` at {line}:{col}`:
    /// that position and the head of the message when the suffix reads as
    /// one (see [`split_position`]), else the whole message at the cursor's
    /// position.
    pub fn lift_err(&self, msg: String) -> (e: Error)
        requires
            self.wf(),
        ensures
            match split_position(msg@) {
                Some((l, c, head)) => e matches Error::Parse { line, col, msg: m } && line == l
                    && col == c && m@ == head,
                None => e matches Error::Parse { line, col, msg: m } && line == line_col(
                    self.bytes@,
                    self.pos as int,
                ).0 && col == line_col(self.bytes@, self.pos as int).1 && m@ == msg@,
            },
    {
        let chars = text::chars_of(msg.as_str());
        let n = chars.len();
        let ghost m = chars@;
        if n >= 4 {
            let mut i = n - 4;
            let mut found = false;
            loop
                invariant
                    m == chars@,
                    n == m.len(),
                    n >= 4,
                    i <= n - 4,
                    !found ==> last_marker(m, m.len() - 4) == last_marker(m, i as int),
                    found ==> last_marker(m, m.len() - 4) == i && marker_at(m, i as int),
                ensures
                    i <= n - 4,
                    !found ==> last_marker(m, m.len() - 4) == -1,
                    found ==> last_marker(m, m.len() - 4) == i && marker_at(m, i as int),
                decreases i,
            {
                if chars[i] == ' ' && chars[i + 1] == 'a' && chars[i + 2] == 't' && chars[i + 3] == ' ' {
                    found = true;
                    break;
                }
                if i == 0 {
                    proof {
                        assert(last_marker(m, -1) == -1);
                    }
                    break;
                }
                i -= 1;
            }
            if found {
                let tail_start = i + 4;
                let mut c = tail_start;
                while c < n
                    invariant
                        tail_start <= c <= n == chars@.len(),
                        m == chars@,
                        first_index_of(m.subrange(tail_start as int, n as int), ':', 0)
                            == first_index_of(m.subrange(tail_start as int, n as int), ':', c - tail_start),
                    ensures
                        tail_start <= c <= n,
                        c < n ==> first_index_of(m.subrange(tail_start as int, n as int), ':', 0) == c - tail_start,
                        c == n ==> first_index_of(m.subrange(tail_start as int, n as int), ':', 0) == -1,
                    decreases n - c,
                {
                    if chars[c] == ':' {
                        break;
                    }
                    c += 1;
                }
                let ghost tail = m.subrange(tail_start as int, n as int);
                if c < n {
                    let line = parse_usize_chars(&chars, tail_start, c);
                    let col = parse_usize_chars(&chars, c + 1, n);
                    proof {
                        assert(tail.subrange(0, c - tail_start) =~= m.subrange(tail_start as int, c as int));
                        assert(tail.subrange(c - tail_start + 1, tail.len() as int) =~= m.subrange(c + 1, n as int));
                    }
                    match (line, col) {
                        (Some(l), Some(co)) => {
                            let head = text::string_from_chars(&chars, 0, i);
                            return Error::Parse { line: l, col: co, msg: head };
                        },
                        _ => {},
                    }
                }
            }
        }
        let (line, col) = self.position_from_offset(self.pos);
        Error::Parse { line, col, msg }
    }
}

} // verus!

verus! {

impl<'a> ParserCore<'a> {
    /// Reads the four hexadecimal digits of a `\u` escape at the position
    /// (see [`hex_at`]), leaving the position after them.
    pub fn parse_hex4_escape(&mut self) -> (r: Result<u16, ParseFail>)
        requires
            old(self).wf(),
        ensures
            final(self).input == old(self).input,
            final(self).bytes == old(self).bytes,
            final(self).pending_trivia == old(self).pending_trivia,
            match hex_at(old(self).bytes@, old(self).pos as int) {
                Ok(v) => r == Ok::<u16, ParseFail>(v as u16) && final(self).pos == old(self).pos + 4,
                Err(f) => r == Err::<u16, ParseFail>(f),
            },
    {
        let n = self.bytes.len();
        let p = self.pos;
        if p > n || n - p < 4 {
            return Err(ParseFail { kind: FailKind::HexEof, offset: n });
        }
        let bytes = self.bytes;
        let mut k: usize = 0;
        while k < 4 && ((0x30 <= bytes[p + k] && bytes[p + k] <= 0x39) || (0x61 <= bytes[p + k]
            && bytes[p + k] <= 0x66) || (0x41 <= bytes[p + k] && bytes[p + k] <= 0x46))
            invariant
                p + 4 <= n == bytes@.len(),
                k <= 4,
                forall|j: int| 0 <= j < k ==> hex_digit(#[trigger] bytes@[p + j]) is Some,
            decreases 4 - k,
        {
            k += 1;
        }
        if k < 4 {
            proof {
                assert(hex_digit(bytes@[p + k]) is None);
                if k >= 1 {
                    assert(hex_digit(bytes@[p + 0]) is Some);
                }
                if k >= 2 {
                    assert(hex_digit(bytes@[p + 1]) is Some);
                }
                if k >= 3 {
                    assert(hex_digit(bytes@[p + 2]) is Some);
                }
            }
            self.pos = p + k + 1;
            return Err(ParseFail { kind: FailKind::HexDigit, offset: p + k });
        }
        proof {
            let d = self.bytes@.subrange(p as int, p + 4);
            assert(d[0] == self.bytes@[p + 0] && d[1] == self.bytes@[p + 1]);
            assert(d[2] == self.bytes@[p + 2] && d[3] == self.bytes@[p + 3]);
        }
        let v = match crate::lazy_val::hex4(self.bytes, p) {
            Some(v) => v,
            None => {
                return Err(ParseFail { kind: FailKind::HexDigit, offset: p });
            },
        };
        self.pos = p + 4;
        Ok(v)
    }
}

} // verus!
