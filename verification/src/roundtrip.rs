//! Reading back what the serializer writes: text written with comments
//! kept parses to the tree it was written from.

use vstd::prelude::*;
use vstd::utf8::*;
use crate::ast::{EntryView, NodeView, NumberView, TriviaView, ValueView};
use crate::parser::{
    lemma_encode_concat, lemma_escape_starts, lemma_escaped_concat, lemma_escaped_plain,
    lemma_no_control, lemma_plain_bytes, lemma_plain_run, lemma_read_escaped, lemma_scalar_bytes,
    elements_from, member_at, members_from, owned_document, parse_string, plain_char, plain_node, value_at,
    value_from, with_comments,
};
use crate::parser::{digits_end, json_number, parse_number};
use crate::parser_core::{
    ParseFail, all_digits, digits_value, integer_lexeme_i64, is_digit, is_frac_or_exp_byte,
    is_number_byte, number_end, skip_trivia, text_of,
};
use crate::serializer::{
    CommentPolicy, FormatOptions, escaped, int_text, is_pretty, leading_piece, leading_text,
};
use crate::text::{decimal, digit_char};
use crate::lazy_parser::{has_keyword, kw_false, kw_null, kw_true};
use crate::parser_core::MAX_DEPTH;
use crate::pointer::{lemma_member_index, member_index};
use crate::serializer::{
    Indentation, elements_text, indent_unit, member_text, members_text, newline_text, node_text,
    repeat_char, value_text,
};
use crate::simd::{ByteClass, in_class, is_ws_byte, lemma_first_match, string_end_from};

verus! {

// ---------------------------------------------------------------------------
// Text inside the input
// ---------------------------------------------------------------------------

/// The number of bytes of `t`.
pub open spec fn blen(t: Seq<char>) -> int {
    encode_utf8(t).len() as int
}

/// The bytes of `t` stand in `b` from `p` on.
pub open spec fn holds_at(b: Seq<u8>, p: int, t: Seq<char>) -> bool {
    &&& 0 <= p
    &&& p + blen(t) <= b.len()
    &&& b.subrange(p, p + blen(t)) == encode_utf8(t)
}

/// Spaces, tabs and line breaks only.
pub open spec fn ws_text(w: Seq<char>) -> bool {
    forall|i: int| 0 <= i < w.len() ==> (#[trigger] w[i] == ' ' || w[i] == '\t' || w[i] == '\n')
}

/// Text standing somewhere is its two halves standing one after the other.
proof fn lemma_holds_split(b: Seq<u8>, p: int, x: Seq<char>, y: Seq<char>)
    requires
        holds_at(b, p, x + y),
    ensures
        blen(x + y) == blen(x) + blen(y),
        holds_at(b, p, x),
        holds_at(b, p + blen(x), y),
{
    lemma_encode_concat(x, y);
    let ex = encode_utf8(x);
    let ey = encode_utf8(y);
    let n = ex.len() as int;
    let whole = b.subrange(p, p + n + ey.len());
    assert(whole == ex + ey);
    assert(b.subrange(p, p + n) =~= ex) by {
        assert forall|k: int| 0 <= k < n implies #[trigger] b.subrange(p, p + n)[k] == ex[k] by {
            assert(whole[k] == (ex + ey)[k]);
        }
    }
    assert(b.subrange(p + n, p + n + ey.len()) =~= ey) by {
        assert forall|k: int| 0 <= k < ey.len() implies #[trigger] b.subrange(
            p + n,
            p + n + ey.len(),
        )[k] == ey[k] by {
            assert(whole[n + k] == (ex + ey)[n + k]);
        }
    }
}

/// The first byte of non-empty text is the first byte of its first
/// character: the character itself when it is ASCII, a byte from 0x80 up
/// otherwise.
proof fn lemma_first_byte(t: Seq<char>)
    requires
        t.len() > 0,
    ensures
        blen(t) >= 1,
        (t[0] as u32) < 0x80 ==> encode_utf8(t)[0] == (t[0] as u32) as u8,
        (t[0] as u32) >= 0x80 ==> encode_utf8(t)[0] >= 0x80,
{
    let s = encode_scalar(t[0] as u32);
    lemma_scalar_bytes(t[0]);
    assert(encode_utf8(t) == s + encode_utf8(t.drop_first()));
    assert(encode_utf8(t)[0] == s[0]);
}

/// An ASCII character is one byte, its own value.
proof fn lemma_ascii_char(c: char)
    requires
        (c as u32) < 0x80,
    ensures
        encode_utf8(seq![c]) == seq![(c as u32) as u8],
        blen(seq![c]) == 1,
        ((c as u32) as u8) as u32 == c as u32,
        (c as u32) as char == c,
{
    let v = c as u32;
    char_u32_cast(c, v);
    assert(v < 0x80 ==> (v as u8) as u32 == v) by (bit_vector);
    lemma_scalar_bytes(c);
    assert(seq![c].drop_first() =~= Seq::<char>::empty());
    assert(encode_utf8(Seq::<char>::empty()) =~= Seq::<u8>::empty());
    assert(encode_utf8(seq![c]) == encode_scalar(v) + encode_utf8(seq![c].drop_first()));
    assert(encode_utf8(seq![c]) =~= seq![v as u8]);
}

/// The byte at `p` when non-empty text stands there.
proof fn lemma_byte_at(b: Seq<u8>, p: int, t: Seq<char>)
    requires
        holds_at(b, p, t),
        t.len() > 0,
    ensures
        p < b.len(),
        (t[0] as u32) < 0x80 ==> b[p] == (t[0] as u32) as u8,
        (t[0] as u32) >= 0x80 ==> b[p] >= 0x80,
{
    lemma_first_byte(t);
    assert(b.subrange(p, p + blen(t))[0] == b[p]);
}

/// Whitespace text is ASCII: its bytes are its characters, each a
/// whitespace byte.
proof fn lemma_ws_bytes(w: Seq<char>)
    requires
        ws_text(w),
    ensures
        blen(w) == w.len(),
        forall|k: int| 0 <= k < w.len() ==> is_ws_byte(#[trigger] encode_utf8(w)[k]),
{
    assert(is_ascii_chars(w)) by {
        assert forall|i: int| 0 <= i < w.len() implies '\0' <= #[trigger] w[i] <= '\u{7f}' by {
            assert(w[i] == ' ' || w[i] == '\t' || w[i] == '\n');
        }
    }
    is_ascii_chars_encode_utf8(w);
    assert forall|k: int| 0 <= k < w.len() implies is_ws_byte(#[trigger] encode_utf8(w)[k]) by {
        assert(w[k] as u8 == encode_utf8(w)[k]);
        assert(w[k] == ' ' || w[k] == '\t' || w[k] == '\n');
    }
}

/// Whitespace joined to whitespace.
proof fn lemma_ws_concat(x: Seq<char>, y: Seq<char>)
    requires
        ws_text(x),
        ws_text(y),
    ensures
        ws_text(x + y),
{
    assert forall|i: int| 0 <= i < (x + y).len() implies (#[trigger] (x + y)[i] == ' ' || (x
        + y)[i] == '\t' || (x + y)[i] == '\n') by {
        if i < x.len() {
            assert((x + y)[i] == x[i]);
        } else {
            assert((x + y)[i] == y[i - x.len()]);
        }
    }
}

/// Skipping a run of whitespace bytes.
proof fn lemma_skip_ws_run(b: Seq<u8>, p: int, m: int, pend: Seq<TriviaView>)
    requires
        0 <= p,
        0 <= m,
        p + m <= b.len(),
        forall|i: int| p <= i < p + m ==> is_ws_byte(#[trigger] b[i]),
    ensures
        skip_trivia(b, p, pend) == skip_trivia(b, p + m, pend),
    decreases m,
{
    if m > 0 {
        assert(is_ws_byte(b[p]));
        lemma_skip_ws_run(b, p + 1, m - 1, pend);
    }
}

/// Skipping whitespace text.
proof fn lemma_skip_ws_text(b: Seq<u8>, p: int, w: Seq<char>, pend: Seq<TriviaView>)
    requires
        holds_at(b, p, w),
        ws_text(w),
    ensures
        blen(w) == w.len(),
        forall|i: int| p <= i < p + w.len() ==> is_ws_byte(#[trigger] b[i]),
        skip_trivia(b, p, pend) == skip_trivia(b, p + w.len(), pend),
{
    lemma_ws_bytes(w);
    assert forall|i: int| p <= i < p + w.len() implies is_ws_byte(#[trigger] b[i]) by {
        assert(b.subrange(p, p + blen(w))[i - p] == b[i]);
        assert(is_ws_byte(encode_utf8(w)[i - p]));
    }
    lemma_skip_ws_run(b, p, w.len() as int, pend);
}

/// Skipping stops at a byte that starts no whitespace or comment.
proof fn lemma_skip_stops(b: Seq<u8>, p: int, pend: Seq<TriviaView>)
    requires
        0 <= p < b.len(),
        !is_ws_byte(b[p]),
        b[p] != 0x2f,
        b[p] < 0x80,
    ensures
        skip_trivia(b, p, pend) == Ok::<(int, Seq<TriviaView>), crate::parser_core::ParseFail>(
            (p, pend),
        ),
{
}


// ---------------------------------------------------------------------------
// Comments
// ---------------------------------------------------------------------------

/// A comment that reads back as written: no line break in a line comment,
/// no `*/` in a block comment.
pub open spec fn printable_comment(t: TriviaView) -> bool {
    match t {
        TriviaView::LineComment(c) => forall|i: int| 0 <= i < c.len() ==> #[trigger] c[i] != '\n',
        TriviaView::BlockComment(c) => forall|i: int|
            0 <= i < c.len() - 1 ==> !(#[trigger] c[i] == '*' && c[i + 1] == '/'),
    }
}

/// Comments that all read back as written.
pub open spec fn printable_comments(ts: Seq<TriviaView>) -> bool {
    forall|i: int| 0 <= i < ts.len() ==> printable_comment(#[trigger] ts[i])
}

/// Text without an ASCII character has no byte of it.
proof fn lemma_no_byte(c: Seq<char>, x: char)
    requires
        (x as u32) < 0x80,
        forall|i: int| 0 <= i < c.len() ==> #[trigger] c[i] != x,
    ensures
        forall|k: int| 0 <= k < blen(c) ==> #[trigger] encode_utf8(c)[k] != (x as u32) as u8,
    decreases c.len(),
{
    if c.len() > 0 {
        let s = encode_scalar(c[0] as u32);
        let r = c.drop_first();
        lemma_scalar_bytes(c[0]);
        lemma_no_byte(r, x);
        assert(encode_utf8(c) == s + encode_utf8(r));
        assert forall|k: int| 0 <= k < blen(c) implies #[trigger] encode_utf8(c)[k] != (
        x as u32) as u8 by {
            if k < s.len() {
                assert(encode_utf8(c)[k] == s[k]);
                if (c[0] as u32) < 0x80 {
                    lemma_ascii_char(c[0]);
                    lemma_ascii_char(x);
                    assert(c[0] != x);
                }
            } else {
                assert(encode_utf8(c)[k] == encode_utf8(r)[k - s.len()]);
                assert(r[(k - s.len())] == r[k - s.len()]);
            }
        }
    }
}

/// Text without `*/` has no byte `*` followed by a byte `/`.
proof fn lemma_no_close_bytes(c: Seq<char>)
    requires
        forall|i: int| 0 <= i < c.len() - 1 ==> !(#[trigger] c[i] == '*' && c[i + 1] == '/'),
    ensures
        forall|k: int|
            0 <= k < blen(c) - 1 ==> !(#[trigger] encode_utf8(c)[k] == 0x2a && encode_utf8(c)[k
                + 1] == 0x2f),
    decreases c.len(),
{
    if c.len() > 0 {
        let s = encode_scalar(c[0] as u32);
        let r = c.drop_first();
        let er = encode_utf8(r);
        lemma_scalar_bytes(c[0]);
        assert forall|i: int| 0 <= i < r.len() - 1 implies !(#[trigger] r[i] == '*' && r[i + 1]
            == '/') by {
            assert(r[i] == c[i + 1] && r[i + 1] == c[i + 2]);
        }
        lemma_no_close_bytes(r);
        let e = encode_utf8(c);
        assert(e == s + er);
        if r.len() > 0 {
            lemma_first_byte(r);
        }
        assert forall|k: int| 0 <= k < blen(c) - 1 implies !(#[trigger] e[k] == 0x2a && e[k + 1]
            == 0x2f) by {
            if k + 1 < s.len() {
                assert(e[k] == s[k]);
            } else if k + 1 == s.len() {
                assert(e[k] == s[k]);
                assert(e[k + 1] == er[0]);
                if (c[0] as u32) < 0x80 && e[k] == 0x2a {
                    lemma_ascii_char(c[0]);
                    assert(c[0] == '*');
                    assert(r[0] == c[1]);
                    if (r[0] as u32) < 0x80 {
                        lemma_ascii_char(r[0]);
                        assert(c[1] != '/');
                    }
                }
            } else {
                assert(e[k] == er[k - s.len()]);
                assert(e[k + 1] == er[k + 1 - s.len()]);
            }
        }
    }
}

/// Where the first `*/` from `from` on starts, when it is at `k`.
proof fn lemma_block_close_at(b: Seq<u8>, from: int, k: int)
    requires
        0 <= from <= k,
        k + 1 < b.len(),
        b[k] == 0x2a,
        b[k + 1] == 0x2f,
        forall|i: int| from <= i < k ==> !(#[trigger] b[i] == 0x2a && b[i + 1] == 0x2f),
    ensures
        crate::parser_core::block_close(b, from) == k,
    decreases k - from,
{
    if from < k {
        lemma_block_close_at(b, from + 1, k);
    }
}

/// Skipping a line comment as the serializer writes it: `//`, the text, a
/// line break and the indentation of the next line.
proof fn lemma_skip_line_comment(
    b: Seq<u8>,
    q: int,
    c: Seq<char>,
    indent: Seq<char>,
    pend: Seq<TriviaView>,
)
    requires
        holds_at(b, q, "//"@ + c + seq!['\n'] + indent),
        ws_text(indent),
        forall|i: int| 0 <= i < c.len() ==> #[trigger] c[i] != '\n',
    ensures
        skip_trivia(b, q, pend) == skip_trivia(
            b,
            q + blen("//"@ + c + seq!['\n'] + indent),
            pend.push(TriviaView::LineComment(c)),
        ),
{
    reveal_strlit("//");
    let t1 = "//"@;
    assert(t1 =~= seq!['/'] + seq!['/']);
    lemma_holds_split(b, q, t1 + c + seq!['\n'], indent);
    lemma_holds_split(b, q, t1 + c, seq!['\n']);
    lemma_holds_split(b, q, t1, c);
    lemma_holds_split(b, q, seq!['/'], seq!['/']);
    lemma_ascii_char('/');
    lemma_ascii_char('\n');
    lemma_byte_at(b, q, seq!['/']);
    lemma_byte_at(b, q + 1, seq!['/']);
    let end = q + 2 + blen(c);
    lemma_byte_at(b, end, seq!['\n']);
    lemma_no_byte(c, '\n');
    assert forall|i: int| q + 2 <= i < end implies !crate::simd::is_newline(#[trigger] b[i]) by {
        assert(b.subrange(q + 2, end)[i - (q + 2)] == b[i]);
        assert(encode_utf8(c)[i - (q + 2)] != 0x0a);
    }
    crate::simd::lemma_first_match(b, q + 2, crate::simd::ByteClass::Newline);
    assert(crate::simd::newline_from(b, q + 2) == end);
    encode_utf8_decode_utf8(c);
    assert(crate::parser_core::text_of(b, q + 2, end) == c);
    lemma_skip_ws_text(b, end, seq!['\n'], pend.push(TriviaView::LineComment(c)));
    lemma_skip_ws_text(b, end + 1, indent, pend.push(TriviaView::LineComment(c)));
    lemma_ws_bytes(seq!['\n']);
}

/// Skipping a block comment as the serializer writes it: `/*`, the text,
/// `*/`, and the whitespace after it.
proof fn lemma_skip_block_comment(
    b: Seq<u8>,
    q: int,
    c: Seq<char>,
    sp: Seq<char>,
    pend: Seq<TriviaView>,
)
    requires
        holds_at(b, q, "/*"@ + c + "*/"@ + sp),
        ws_text(sp),
        forall|i: int| 0 <= i < c.len() - 1 ==> !(#[trigger] c[i] == '*' && c[i + 1] == '/'),
    ensures
        skip_trivia(b, q, pend) == skip_trivia(
            b,
            q + blen("/*"@ + c + "*/"@ + sp),
            pend.push(TriviaView::BlockComment(c)),
        ),
{
    reveal_strlit("/*");
    reveal_strlit("*/");
    let t1 = "/*"@;
    let t2 = "*/"@;
    assert(t1 =~= seq!['/'] + seq!['*']);
    assert(t2 =~= seq!['*'] + seq!['/']);
    lemma_holds_split(b, q, t1 + c + t2, sp);
    lemma_holds_split(b, q, t1 + c, t2);
    lemma_holds_split(b, q, t1, c);
    lemma_holds_split(b, q, seq!['/'], seq!['*']);
    let k = q + blen(t1) + blen(c);
    lemma_holds_split(b, k, seq!['*'], seq!['/']);
    lemma_ascii_char('/');
    lemma_ascii_char('*');
    lemma_byte_at(b, q, seq!['/']);
    lemma_byte_at(b, q + 1, seq!['*']);
    lemma_byte_at(b, k, seq!['*']);
    lemma_byte_at(b, k + 1, seq!['/']);
    lemma_no_close_bytes(c);
    assert forall|i: int| q + 2 <= i < k implies !(#[trigger] b[i] == 0x2a && b[i + 1] == 0x2f) by {
        assert(b.subrange(q + 2, k)[i - (q + 2)] == b[i]);
        if i + 1 < k {
            assert(b.subrange(q + 2, k)[i + 1 - (q + 2)] == b[i + 1]);
        }
    }
    lemma_block_close_at(b, q + 2, k);
    encode_utf8_decode_utf8(c);
    assert(crate::parser_core::text_of(b, q + 2, k) == c);
    lemma_skip_ws_text(b, k + 2, sp, pend.push(TriviaView::BlockComment(c)));
}


/// Skipping the comments the serializer writes before a key or value, with
/// comments kept: they are read in order after `pend`.
proof fn lemma_skip_leading(
    o: FormatOptions,
    indent: Seq<char>,
    ts: Seq<TriviaView>,
    b: Seq<u8>,
    p: int,
    pend: Seq<TriviaView>,
)
    requires
        o.comment_policy == CommentPolicy::Keep,
        ws_text(indent),
        printable_comments(ts),
        holds_at(b, p, leading_text(o, indent, ts)),
    ensures
        skip_trivia(b, p, pend) == skip_trivia(
            b,
            p + blen(leading_text(o, indent, ts)),
            pend + ts,
        ),
    decreases ts.len(),
{
    if ts.len() == 0 {
        assert(pend + ts =~= pend);
        assert(encode_utf8(Seq::<char>::empty()) =~= Seq::<u8>::empty());
    } else {
        let init = ts.drop_last();
        let t = ts.last();
        let lead = leading_text(o, indent, init);
        let piece = leading_piece(o, indent, t);
        lemma_holds_split(b, p, lead, piece);
        assert(printable_comments(init)) by {
            assert forall|i: int| 0 <= i < init.len() implies printable_comment(
                #[trigger] init[i],
            ) by {
                assert(init[i] == ts[i]);
            }
        }
        assert(printable_comment(ts[ts.len() - 1]));
        lemma_skip_leading(o, indent, init, b, p, pend);
        let p2 = p + blen(lead);
        match t {
            TriviaView::LineComment(c) => {
                assert(piece == "//"@ + c + seq!['\n'] + indent);
                lemma_skip_line_comment(b, p2, c, indent, pend + init);
            },
            TriviaView::BlockComment(c) => {
                let sp: Seq<char> = if is_pretty(o) {
                    seq![' ']
                } else {
                    seq![]
                };
                assert(piece =~= "/*"@ + c + "*/"@ + sp);
                assert(ws_text(sp));
                lemma_skip_block_comment(b, p2, c, sp, pend + init);
            },
        }
        assert((pend + init).push(t) =~= pend + ts);
    }
}

// ---------------------------------------------------------------------------
// Scalars
// ---------------------------------------------------------------------------

/// A string written as the serializer writes it, anywhere in the input,
/// reads back as its text, the reader stopping after the closing quote.
proof fn lemma_string_at(b: Seq<u8>, p: int, s: Seq<char>)
    requires
        holds_at(b, p, seq!['"'] + escaped(s) + seq!['"']),
    ensures
        parse_string(b, p) == Ok::<(Seq<char>, int), ParseFail>(
            (s, p + blen(seq!['"'] + escaped(s) + seq!['"'])),
        ),
{
    let m = lemma_plain_run(s, 0);
    let pre = s.take(m);
    let post = s.skip(m);
    assert(s =~= pre + post);
    assert forall|k: int| 0 <= k < pre.len() implies plain_char(#[trigger] pre[k]) by {
        assert(pre[k] == s[k]);
    }
    lemma_escaped_plain(pre);
    lemma_plain_bytes(pre);
    lemma_escaped_concat(pre, post);
    let q = seq!['"'];
    let ep = encode_utf8(pre);
    let n = ep.len() as int;
    let eq = encode_utf8(escaped(post));
    let nq = eq.len() as int;
    assert(q + escaped(s) + q =~= q + pre + escaped(post) + q);
    lemma_holds_split(b, p, q + pre + escaped(post), q);
    lemma_holds_split(b, p, q + pre, escaped(post));
    lemma_holds_split(b, p, q, pre);
    lemma_ascii_char('"');
    lemma_byte_at(b, p, q);
    lemma_byte_at(b, p + 1 + n + nq, q);
    assert(blen(q + escaped(s) + q) == n + nq + 2);
    assert forall|k: int| p + 1 <= k < p + 1 + n implies #[trigger] b[k] >= 0x20 && !in_class(
        b[k],
        ByteClass::StringStop,
    ) by {
        assert(b.subrange(p + 1, p + 1 + n)[k - (p + 1)] == b[k]);
        assert(b[k] == ep[k - (p + 1)]);
    }
    encode_utf8_decode_utf8(pre);
    lemma_first_match(b, p + 1, ByteClass::StringStop);
    if post.len() == 0 {
        assert(escaped(post) =~= Seq::<char>::empty());
        assert(eq =~= Seq::<u8>::empty());
        assert(string_end_from(b, p + 1) == p + 1 + n);
        lemma_no_control(b, p + 1, p + 1 + n);
        assert(pre =~= s);
    } else {
        assert(post[0] == s[m]);
        lemma_escape_starts(post);
        assert(b.subrange(p + 1 + n, p + 1 + n + nq)[0] == b[p + 1 + n]);
        assert(b[p + 1 + n] == 0x5c);
        assert(string_end_from(b, p + 1) == p + 1 + n);
        lemma_read_escaped(b, p + 1 + n, post, pre);
    }
}


/// The decimal digits of a natural number are ASCII digit bytes that read
/// back as the number.
#[verifier::spinoff_prover]
#[verifier::rlimit(40)]
proof fn lemma_decimal_bytes(n: nat)
    ensures
        decimal(n).len() > 0,
        is_ascii_chars(decimal(n)),
        blen(decimal(n)) == decimal(n).len(),
        all_digits(encode_utf8(decimal(n))),
        digits_value(encode_utf8(decimal(n))) == n,
    decreases n,
{
    let dc = digit_char(n % 10);
    assert((dc as u32) < 0x80 && (dc as u32) as u8 == (n % 10) + 48);
    lemma_ascii_char(dc);
    if n < 10 {
        assert(decimal(n) == seq![dc]);
        let x = encode_utf8(decimal(n));
        assert(x =~= seq![((n + 48) as u8)]);
        assert(x.drop_last() =~= Seq::<u8>::empty());
        assert(digits_value(Seq::<u8>::empty()) == 0);
        assert(digits_value(x) == digits_value(x.drop_last()) * 10 + (x.last() - 0x30) as nat);
        assert(is_ascii_chars(decimal(n)));
    } else {
        lemma_decimal_bytes(n / 10);
        let d = decimal(n / 10);
        assert(decimal(n) =~= d + seq![dc]);
        lemma_encode_concat(d, seq![dc]);
        let x = encode_utf8(decimal(n));
        assert(x =~= encode_utf8(d) + seq![((n % 10 + 48) as u8)]);
        assert(x.drop_last() =~= encode_utf8(d));
        assert(x.last() == ((n % 10 + 48) as u8));
        assert(all_digits(x)) by {
            assert forall|i: int| 0 <= i < x.len() implies is_digit(#[trigger] x[i]) by {
                if i < encode_utf8(d).len() {
                    assert(x[i] == encode_utf8(d)[i]);
                }
            }
        }
        assert(digits_value(x) == n) by {
            assert(digits_value(x) == digits_value(x.drop_last()) * 10 + (x.last() - 0x30) as nat);
            assert((n / 10) * 10 + n % 10 == n) by (nonlinear_arith);
        }
        assert(is_ascii_chars(decimal(n))) by {
            assert forall|i: int| 0 <= i < decimal(n).len() implies '\0' <= #[trigger] decimal(
                n,
            )[i] <= '\u{7f}' by {
                if i < d.len() {
                    assert(decimal(n)[i] == d[i]);
                }
            }
        }
    }
}

/// The bytes of an integer as the serializer writes it: a `-` or a digit,
/// then digits, reading back as the integer.
proof fn lemma_int_text(i: i64)
    ensures
        blen(int_text(i as int)) > 0,
        is_digit(encode_utf8(int_text(i as int))[0]) || encode_utf8(int_text(i as int))[0]
            == 0x2d,
        forall|k: int|
            0 < k < blen(int_text(i as int)) ==> is_digit(
                #[trigger] encode_utf8(int_text(i as int))[k],
            ),
        integer_lexeme_i64(encode_utf8(int_text(i as int))) == Some(i),
{
    let x = encode_utf8(int_text(i as int));
    if i < 0 {
        let m = (-(i as int)) as nat;
        lemma_decimal_bytes(m);
        lemma_ascii_char('-');
        lemma_encode_concat(seq!['-'], decimal(m));
        assert(x =~= seq![0x2du8] + encode_utf8(decimal(m)));
        assert(x.drop_first() =~= encode_utf8(decimal(m)));
        assert forall|k: int| 0 < k < x.len() implies is_digit(#[trigger] x[k]) by {
            assert(x[k] == encode_utf8(decimal(m))[k - 1]);
        }
    } else {
        lemma_decimal_bytes(i as nat);
        assert(x[0] != 0x2d);
    }
}

/// A run of digits from `i` to the end ends at the end.
proof fn lemma_digits_to_end(s: Seq<u8>, i: int)
    requires
        0 <= i <= s.len(),
        forall|k: int| i <= k < s.len() ==> is_digit(#[trigger] s[k]),
    ensures
        digits_end(s, i) == s.len(),
    decreases s.len() - i,
{
    if i < s.len() {
        lemma_digits_to_end(s, i + 1);
    }
}

/// The decimal digits of a number other than zero do not start with `0`.
proof fn lemma_decimal_zero(n: nat)
    requires
        n >= 1,
    ensures
        decimal(n)[0] != '0',
    decreases n,
{
    if n < 10 {
        assert(decimal(n) == seq![digit_char(n)]);
    } else {
        lemma_decimal_zero(n / 10);
        assert(decimal(n)[0] == decimal(n / 10)[0]);
    }
}

/// An integer as the serializer writes it follows the JSON number grammar.
proof fn lemma_int_json(i: i64)
    ensures
        json_number(encode_utf8(int_text(i as int))),
{
    let x = encode_utf8(int_text(i as int));
    lemma_int_text(i);
    let m: nat = if i < 0 { (-(i as int)) as nat } else { i as nat };
    lemma_decimal_bytes(m);
    let d = decimal(m);
    is_ascii_chars_encode_utf8(d);
    let a: int = if i < 0 { 1 } else { 0 };
    assert(x.len() == a + d.len()) by {
        if i < 0 {
            lemma_ascii_char('-');
            lemma_encode_concat(seq!['-'], d);
        }
    }
    assert forall|k: int| a <= k < x.len() implies is_digit(#[trigger] x[k]) by {
        if k == 0 {
            assert(x[0] != 0x2d || i < 0);
        }
    }
    lemma_digits_to_end(x, a);
    if m >= 1 {
        lemma_decimal_zero(m);
        assert(x[a] == encode_utf8(d)[0]) by {
            if i < 0 {
                lemma_ascii_char('-');
                lemma_encode_concat(seq!['-'], d);
                assert(x == seq![0x2du8] + encode_utf8(d));
            }
        }
        assert(encode_utf8(d)[0] == d[0] as u8);
        assert(d[0] != '0');
        assert(x[a] != 0x30);
    } else {
        assert(d.len() == 1);
    }
}

/// Where a run of number bytes ends, when it ends at `k`.
proof fn lemma_number_end_at(b: Seq<u8>, from: int, k: int)
    requires
        0 <= from <= k <= b.len(),
        forall|i: int| from <= i < k ==> is_number_byte(#[trigger] b[i]),
        k == b.len() || !is_number_byte(b[k]),
    ensures
        number_end(b, from) == k,
    decreases k - from,
{
    if from < k {
        lemma_number_end_at(b, from + 1, k);
    }
}

/// The byte after a value: none, or one that does not continue a number.
pub open spec fn value_ends(b: Seq<u8>, i: int) -> bool {
    i == b.len() || (0 <= i < b.len() && !is_number_byte(b[i]))
}

/// A number lexeme that reads back as itself: number bytes only, a sign or
/// a digit first, the JSON number grammar, and a fraction or exponent, or
/// else an integer beyond `i64`.
pub open spec fn float_lexeme(t: Seq<char>) -> bool {
    let x = encode_utf8(t);
    &&& x.len() > 0
    &&& (is_digit(x[0]) || x[0] == 0x2d)
    &&& forall|k: int| 0 <= k < x.len() ==> is_number_byte(#[trigger] x[k])
    &&& json_number(x)
    &&& ((exists|k: int| 0 < k < x.len() && is_frac_or_exp_byte(#[trigger] x[k]))
        || integer_lexeme_i64(x) is None)
}

/// A lexeme of number bytes standing at `p`, followed by no number byte:
/// the number reader takes exactly its bytes, and finds a fraction or
/// exponent byte where the lexeme has one after its first byte.
proof fn lemma_lexeme_at(b: Seq<u8>, p: int, t: Seq<char>)
    requires
        holds_at(b, p, t),
        blen(t) > 0,
        forall|k: int| 0 <= k < blen(t) ==> is_number_byte(#[trigger] encode_utf8(t)[k]),
        value_ends(b, p + blen(t)),
    ensures
        number_end(b, p + 1) == p + blen(t),
        b.subrange(p, p + blen(t)) == encode_utf8(t),
        (exists|i: int| p < i < p + blen(t) && is_frac_or_exp_byte(#[trigger] b[i])) <==> (exists|
            k: int,
        | 0 < k < blen(t) && is_frac_or_exp_byte(#[trigger] encode_utf8(t)[k])),
{
    let x = encode_utf8(t);
    let q = p + blen(t);
    assert forall|i: int| p <= i < q implies #[trigger] b[i] == x[i - p] by {
        assert(b.subrange(p, q)[i - p] == b[i]);
    }
    assert forall|i: int| p + 1 <= i < q implies is_number_byte(#[trigger] b[i]) by {
        assert(b[i] == x[i - p]);
    }
    lemma_number_end_at(b, p + 1, q);
    if exists|i: int| p < i < q && is_frac_or_exp_byte(#[trigger] b[i]) {
        let i = choose|i: int| p < i < q && is_frac_or_exp_byte(#[trigger] b[i]);
        assert(b[i] == x[i - p]);
        assert(is_frac_or_exp_byte(x[i - p]));
    }
    if exists|k: int| 0 < k < blen(t) && is_frac_or_exp_byte(#[trigger] x[k]) {
        let k = choose|k: int| 0 < k < blen(t) && is_frac_or_exp_byte(#[trigger] x[k]);
        assert(b[p + k] == x[k]);
        assert(is_frac_or_exp_byte(b[p + k]));
    }
}

/// An integer as the serializer writes it reads back as the integer.
proof fn lemma_int_at(b: Seq<u8>, p: int, i: i64)
    requires
        holds_at(b, p, int_text(i as int)),
        value_ends(b, p + blen(int_text(i as int))),
    ensures
        parse_number(b, p) == Ok::<(NumberView, int), ParseFail>(
            (NumberView::Int(i), p + blen(int_text(i as int))),
        ),
{
    let t = int_text(i as int);
    lemma_int_text(i);
    lemma_int_json(i);
    assert forall|k: int| 0 <= k < blen(t) implies is_number_byte(#[trigger] encode_utf8(t)[k]) by {
        if k > 0 {
            assert(is_digit(encode_utf8(t)[k]));
        }
    }
    lemma_lexeme_at(b, p, t);
    assert(!exists|k: int| 0 < k < blen(t) && is_frac_or_exp_byte(#[trigger] encode_utf8(t)[k]))
        by {
        assert forall|k: int| 0 < k < blen(t) implies !is_frac_or_exp_byte(
            #[trigger] encode_utf8(t)[k],
        ) by {
            assert(is_digit(encode_utf8(t)[k]));
        }
    }
}

/// A number kept as its lexeme reads back as the lexeme.
proof fn lemma_float_at(b: Seq<u8>, p: int, t: Seq<char>)
    requires
        holds_at(b, p, t),
        float_lexeme(t),
        value_ends(b, p + blen(t)),
    ensures
        parse_number(b, p) == Ok::<(NumberView, int), ParseFail>(
            (NumberView::Float(t), p + blen(t)),
        ),
{
    lemma_lexeme_at(b, p, t);
    encode_utf8_decode_utf8(t);
    assert(text_of(b, p, p + blen(t)) == t);
}


/// The keywords are their ASCII bytes.
proof fn lemma_keyword_bytes()
    ensures
        encode_utf8("null"@) == kw_null(),
        encode_utf8("true"@) == kw_true(),
        encode_utf8("false"@) == kw_false(),
{
    reveal_strlit("null");
    reveal_strlit("true");
    reveal_strlit("false");
    assert(is_ascii_chars("null"@));
    assert(is_ascii_chars("true"@));
    assert(is_ascii_chars("false"@));
    is_ascii_chars_encode_utf8("null"@);
    is_ascii_chars_encode_utf8("true"@);
    is_ascii_chars_encode_utf8("false"@);
    assert(encode_utf8("null"@) =~= kw_null());
    assert(encode_utf8("true"@) =~= kw_true());
    assert(encode_utf8("false"@) =~= kw_false());
}

// ---------------------------------------------------------------------------
// Trees
// ---------------------------------------------------------------------------

/// A value that reads back as written from nesting `depth` on: each number
/// kept as its lexeme reads back as itself, every node has no comma and
/// only comments that read back, and arrays and objects open at most
/// `MAX_DEPTH` levels deep, no object has a key twice, and no value is
/// deferred (a deferred value is written as its raw text, which reads back
/// as whatever that text holds).
pub open spec fn printable_value(v: ValueView, depth: int) -> bool
    decreases v,
{
    match v {
        ValueView::Lazy(_) => false,
        ValueView::Number(NumberView::Float(t)) => float_lexeme(t),
        ValueView::Array(items) => depth < MAX_DEPTH && forall|i: int|
            0 <= i < items.len() ==> printable_node(#[trigger] items[i], depth + 1),
        ValueView::Object(ms) => depth < MAX_DEPTH && distinct_keys(ms) && forall|i: int|
            0 <= i < ms.len() ==> printable_entry(#[trigger] ms[i], depth + 1),
        _ => true,
    }
}

/// No two members have the same key.
pub open spec fn distinct_keys(ms: Seq<EntryView>) -> bool {
    forall|i: int, j: int| 0 <= i < j < ms.len() ==> #[trigger] ms[i].key != #[trigger] ms[j].key
}

/// A node that reads back as written at nesting `depth` (see
/// [`printable_value`]).
pub open spec fn printable_node(n: NodeView, depth: int) -> bool
    decreases n,
{
    &&& !n.comma
    &&& printable_comments(n.trivia)
    &&& printable_value(n.value, depth)
}

/// A member that reads back as written at nesting `depth` (see
/// [`printable_value`]).
pub open spec fn printable_entry(e: EntryView, depth: int) -> bool
    decreases e,
{
    &&& printable_comments(e.key_trivia)
    &&& printable_node(e.value, depth)
}

/// The bytes a written value starts with.
pub open spec fn value_start(c: u8) -> bool {
    c == 0x22 || c == 0x2d || is_digit(c) || c == 0x74 || c == 0x66 || c == 0x6e || c == 0x5b
        || c == 0x7b
}

/// A written value is not empty and starts with a quote, a sign, a digit,
/// a keyword's letter or an opening bracket.
proof fn lemma_value_start(o: FormatOptions, indent: Seq<char>, v: ValueView, depth: int)
    requires
        printable_value(v, depth),
    ensures
        blen(value_text(o, indent, v)) > 0,
        value_start(encode_utf8(value_text(o, indent, v))[0]),
{
    let t = value_text(o, indent, v);
    match v {
        ValueView::Null => {
            lemma_keyword_bytes();
        },
        ValueView::Bool(x) => {
            lemma_keyword_bytes();
        },
        ValueView::Number(NumberView::Int(i)) => {
            lemma_int_text(i);
        },
        ValueView::Number(NumberView::Float(f)) => {},
        ValueView::String(x) => {
            assert(t[0] == '"');
            lemma_first_byte(t);
        },
        ValueView::Array(items) => {
            reveal_strlit("[]");
            assert(t[0] == '[');
            lemma_first_byte(t);
        },
        ValueView::Object(ms) => {
            reveal_strlit("{}");
            assert(t[0] == '{');
            lemma_first_byte(t);
        },
        ValueView::Lazy(_) => {},
    }
}

/// A written scalar reads back as itself, with the comments before it.
proof fn lemma_scalar_at(
    o: FormatOptions,
    indent: Seq<char>,
    v: ValueView,
    depth: int,
    b: Seq<u8>,
    p: int,
    pend: Seq<TriviaView>,
)
    requires
        !(v is Array),
        !(v is Object),
        printable_value(v, depth),
        holds_at(b, p, value_text(o, indent, v)),
        value_ends(b, p + blen(value_text(o, indent, v))),
    ensures
        value_at(b, p, pend, depth, true) == Ok::<(NodeView, int, Seq<TriviaView>), ParseFail>(
            (plain_node(v, pend), p + blen(value_text(o, indent, v)), seq![]),
        ),
{
    let t = value_text(o, indent, v);
    lemma_value_start(o, indent, v, depth);
    assert(b.subrange(p, p + blen(t))[0] == b[p]);
    lemma_keyword_bytes();
    match v {
        ValueView::Number(NumberView::Int(i)) => {
            lemma_int_text(i);
            lemma_int_at(b, p, i);
        },
        ValueView::Number(NumberView::Float(f)) => {
            lemma_float_at(b, p, f);
        },
        ValueView::String(x) => {
            lemma_string_at(b, p, x);
            assert(t[0] == '"');
            lemma_first_byte(t);
            lemma_ascii_char('"');
        },
        ValueView::Null => {
            assert(has_keyword(b, p, kw_null()));
        },
        ValueView::Bool(x) => {
            if x {
                assert(has_keyword(b, p, kw_true()));
            } else {
                assert(has_keyword(b, p, kw_false()));
            }
        },
        _ => {},
    }
}


// ---------------------------------------------------------------------------
// Lines of arrays and objects
// ---------------------------------------------------------------------------

/// The `k`-th element's line as [`elements_text`] writes it.
pub open spec fn element_line(o: FormatOptions, indent: Seq<char>, items: Seq<NodeView>, k: int) -> Seq<
    char,
> {
    indent + node_text(o, indent, items[k]) + (if k + 1 < items.len() && !items[k].comma {
        seq![',']
    } else {
        seq![]
    }) + newline_text(o)
}

/// The lines of the elements from the `k`-th on.
pub open spec fn elements_rest(o: FormatOptions, indent: Seq<char>, items: Seq<NodeView>, k: int) -> Seq<
    char,
>
    decreases items.len() - k,
{
    if k < 0 || k >= items.len() {
        seq![]
    } else {
        element_line(o, indent, items, k) + elements_rest(o, indent, items, k + 1)
    }
}

/// The `k`-th member's line as [`members_text`] writes it.
pub open spec fn member_line(o: FormatOptions, indent: Seq<char>, ms: Seq<EntryView>, k: int) -> Seq<
    char,
> {
    indent + member_text(o, indent, ms[k]) + (if k + 1 < ms.len() && !ms[k].value.comma {
        seq![',']
    } else {
        seq![]
    }) + newline_text(o)
}

/// The lines of the members from the `k`-th on.
pub open spec fn members_rest(o: FormatOptions, indent: Seq<char>, ms: Seq<EntryView>, k: int) -> Seq<
    char,
>
    decreases ms.len() - k,
{
    if k < 0 || k >= ms.len() {
        seq![]
    } else {
        member_line(o, indent, ms, k) + members_rest(o, indent, ms, k + 1)
    }
}

/// The lines of all elements are those before the `k`-th and those from it
/// on.
proof fn lemma_elements_split(o: FormatOptions, indent: Seq<char>, items: Seq<NodeView>, k: int)
    requires
        0 <= k <= items.len(),
    ensures
        elements_text(o, indent, items, items.len()) == elements_text(o, indent, items, k as nat)
            + elements_rest(o, indent, items, k),
    decreases items.len() - k,
{
    if k == items.len() {
        assert(elements_text(o, indent, items, k as nat) + elements_rest(o, indent, items, k)
            =~= elements_text(o, indent, items, k as nat));
    } else {
        lemma_elements_split(o, indent, items, k + 1);
        assert(elements_text(o, indent, items, (k + 1) as nat) =~= elements_text(
            o,
            indent,
            items,
            k as nat,
        ) + element_line(o, indent, items, k));
        assert(elements_text(o, indent, items, k as nat) + elements_rest(o, indent, items, k)
            =~= elements_text(o, indent, items, (k + 1) as nat) + elements_rest(
            o,
            indent,
            items,
            k + 1,
        ));
    }
}

/// The lines of all members are those before the `k`-th and those from it
/// on.
proof fn lemma_members_split(o: FormatOptions, indent: Seq<char>, ms: Seq<EntryView>, k: int)
    requires
        0 <= k <= ms.len(),
    ensures
        members_text(o, indent, ms, ms.len()) == members_text(o, indent, ms, k as nat)
            + members_rest(o, indent, ms, k),
    decreases ms.len() - k,
{
    if k == ms.len() {
        assert(members_text(o, indent, ms, k as nat) + members_rest(o, indent, ms, k)
            =~= members_text(o, indent, ms, k as nat));
    } else {
        lemma_members_split(o, indent, ms, k + 1);
        assert(members_text(o, indent, ms, (k + 1) as nat) =~= members_text(
            o,
            indent,
            ms,
            k as nat,
        ) + member_line(o, indent, ms, k));
        assert(members_text(o, indent, ms, k as nat) + members_rest(o, indent, ms, k)
            =~= members_text(o, indent, ms, (k + 1) as nat) + members_rest(o, indent, ms, k + 1));
    }
}

/// Two texts standing one after the other are their concatenation
/// standing there.
proof fn lemma_holds_join(b: Seq<u8>, p: int, x: Seq<char>, y: Seq<char>)
    requires
        holds_at(b, p, x),
        holds_at(b, p + blen(x), y),
    ensures
        holds_at(b, p, x + y),
        blen(x + y) == blen(x) + blen(y),
{
    lemma_encode_concat(x, y);
    let ex = encode_utf8(x);
    let ey = encode_utf8(y);
    let n = ex.len() as int;
    assert(b.subrange(p, p + n + ey.len()) =~= ex + ey) by {
        assert forall|k: int| 0 <= k < n + ey.len() implies #[trigger] b.subrange(
            p,
            p + n + ey.len(),
        )[k] == (ex + ey)[k] by {
            if k < n {
                assert(b.subrange(p, p + n)[k] == b[p + k]);
            } else {
                assert(b.subrange(p + n, p + n + ey.len())[k - n] == b[p + k]);
            }
        }
    }
}

/// `n` spaces are whitespace.
proof fn lemma_repeat_ws(n: nat)
    ensures
        ws_text(repeat_char(' ', n)),
    decreases n,
{
    if n > 0 {
        lemma_repeat_ws((n - 1) as nat);
        assert(ws_text(seq![' ']));
        lemma_ws_concat(repeat_char(' ', (n - 1) as nat), seq![' ']);
        assert(repeat_char(' ', (n - 1) as nat).push(' ') =~= repeat_char(' ', (n - 1) as nat)
            + seq![' ']);
    }
}

/// Indentation one level deeper, and line breaks, are whitespace.
proof fn lemma_layout_ws(o: FormatOptions, indent: Seq<char>)
    requires
        ws_text(indent),
    ensures
        ws_text(indent + indent_unit(o)),
        ws_text(newline_text(o)),
{
    match o.indentation {
        Indentation::Spaces(n) => lemma_repeat_ws(n as nat),
        _ => {},
    }
    lemma_ws_concat(indent, indent_unit(o));
}

/// Whitespace, then an ASCII character that starts no whitespace or
/// comment: skipping stops at that character, and the first byte is not
/// part of a number when the character is not.
proof fn lemma_ws_then(b: Seq<u8>, p: int, w: Seq<char>, c: char, pend: Seq<TriviaView>)
    requires
        ws_text(w),
        holds_at(b, p, w + seq![c]),
        (c as u32) < 0x80,
        !is_ws_byte((c as u32) as u8),
        c != '/',
        !is_number_byte((c as u32) as u8),
    ensures
        blen(w) == w.len(),
        p + w.len() < b.len(),
        b[p + w.len()] == (c as u32) as u8,
        skip_trivia(b, p, pend) == Ok::<(int, Seq<TriviaView>), ParseFail>((p + w.len(), pend)),
        value_ends(b, p),
{
    lemma_holds_split(b, p, w, seq![c]);
    lemma_ascii_char(c);
    lemma_byte_at(b, p + blen(w), seq![c]);
    lemma_skip_ws_text(b, p, w, pend);
    if w.len() > 0 {
        lemma_byte_at(b, p, w);
        assert(w[0] == ' ' || w[0] == '\t' || w[0] == '\n');
    }
}


/// What follows the comments before a member's key: the key, `:`, the
/// space of pretty output and the value node.
pub open spec fn member_body(o: FormatOptions, indent: Seq<char>, e: EntryView) -> Seq<char> {
    seq!['"'] + escaped(e.key) + seq!['"'] + seq![':'] + (if is_pretty(o) {
        seq![' ']
    } else {
        seq![]
    }) + node_text(o, indent, e.value)
}

// ---------------------------------------------------------------------------
// Reading back values, elements and members
// ---------------------------------------------------------------------------

/// An opening bracket at `p`: the array is read from the next byte on.
proof fn lemma_array_opens(b: Seq<u8>, p: int, pend: Seq<TriviaView>, depth: int)
    requires
        0 <= p < b.len(),
        b[p] == 0x5b,
        depth < MAX_DEPTH,
    ensures
        value_at(b, p, pend, depth, true) == match elements_from(b, p + 1, seq![], depth + 1, seq![], true) {
            Err(f) => Err(f),
            Ok((v, q, rest)) => Ok((plain_node(v, pend), q, rest)),
        },
{
}

/// An opening brace at `p`: the object is read from the next byte on.
proof fn lemma_object_opens(b: Seq<u8>, p: int, pend: Seq<TriviaView>, depth: int)
    requires
        0 <= p < b.len(),
        b[p] == 0x7b,
        depth < MAX_DEPTH,
    ensures
        value_at(b, p, pend, depth, true) == match members_from(b, p + 1, seq![], depth + 1, seq![], true) {
            Err(f) => Err(f),
            Ok((v, q, rest)) => Ok((plain_node(v, pend), q, rest)),
        },
{
}

/// At a closing bracket after the last element: the array is done.
proof fn lemma_elements_close(b: Seq<u8>, r: int, depth: int, items: Seq<NodeView>)
    requires
        0 <= r < b.len(),
        b[r] == 0x5d,
        items.len() > 0,
    ensures
        elements_from(b, r, seq![], depth, items, true) == Ok::<
            (ValueView, int, Seq<TriviaView>),
            ParseFail,
        >((ValueView::Array(items), r + 1, seq![])),
{
    lemma_skip_stops(b, r, seq![]);
    let last = items.len() - 1;
    assert(with_comments(items[last], seq![]) =~= items[last]);
    assert(items.update(last, with_comments(items[last], seq![])) =~= items);
}

/// At a closing brace after the last member: the object is done.
proof fn lemma_members_close(b: Seq<u8>, r: int, depth: int, ms: Seq<EntryView>)
    requires
        0 <= r < b.len(),
        b[r] == 0x7d,
        ms.len() > 0,
    ensures
        members_from(b, r, seq![], depth, ms, true) == Ok::<
            (ValueView, int, Seq<TriviaView>),
            ParseFail,
        >((ValueView::Object(ms), r + 1, seq![])),
{
    lemma_skip_stops(b, r, seq![]);
    let last = ms.len() - 1;
    let le = ms[last];
    assert(with_comments(le.value, seq![]) =~= le.value);
    assert(ms.update(
        last,
        EntryView { key: le.key, key_trivia: le.key_trivia, value: with_comments(le.value, seq![]) },
    ) =~= ms);
}

/// The layout of a written non-empty array: `[`, a line break, the element
/// lines one level deeper, the indentation and `]`.
proof fn lemma_array_layout(
    o: FormatOptions,
    indent: Seq<char>,
    items: Seq<NodeView>,
    b: Seq<u8>,
    p: int,
)
    requires
        ws_text(indent),
        items.len() > 0,
        holds_at(b, p, value_text(o, indent, ValueView::Array(items))),
    ensures
        ws_text(indent + indent_unit(o)),
        p < b.len(),
        b[p] == 0x5b,
        forall|i: int| p + 1 <= i < p + 1 + newline_text(o).len() ==> is_ws_byte(#[trigger] b[i]),
        holds_at(
            b,
            p + 1 + newline_text(o).len(),
            elements_rest(o, indent + indent_unit(o), items, 0) + indent + seq![']'],
        ),
        blen(value_text(o, indent, ValueView::Array(items))) == 1 + newline_text(o).len() + blen(
            elements_rest(o, indent + indent_unit(o), items, 0) + indent + seq![']'],
        ),
{
    lemma_layout_ws(o, indent);
    let inner = indent + indent_unit(o);
    let nl = newline_text(o);
    let t = value_text(o, indent, ValueView::Array(items));
    let rest = elements_rest(o, inner, items, 0) + indent + seq![']'];
    lemma_elements_split(o, inner, items, 0);
    assert(elements_text(o, inner, items, 0) =~= Seq::<char>::empty());
    assert(t =~= (seq!['['] + nl) + rest);
    lemma_holds_split(b, p, seq!['['] + nl, rest);
    lemma_holds_split(b, p, seq!['['], nl);
    lemma_ascii_char('[');
    lemma_byte_at(b, p, seq!['[']);
    lemma_skip_ws_text(b, p + 1, nl, seq![]);
}

/// The layout of a written non-empty object: `{`, a line break, the member
/// lines one level deeper, the indentation and `}`.
proof fn lemma_object_layout(
    o: FormatOptions,
    indent: Seq<char>,
    ms: Seq<EntryView>,
    b: Seq<u8>,
    p: int,
)
    requires
        ws_text(indent),
        ms.len() > 0,
        holds_at(b, p, value_text(o, indent, ValueView::Object(ms))),
    ensures
        ws_text(indent + indent_unit(o)),
        p < b.len(),
        b[p] == 0x7b,
        forall|i: int| p + 1 <= i < p + 1 + newline_text(o).len() ==> is_ws_byte(#[trigger] b[i]),
        holds_at(
            b,
            p + 1 + newline_text(o).len(),
            members_rest(o, indent + indent_unit(o), ms, 0) + indent + seq!['}'],
        ),
        blen(value_text(o, indent, ValueView::Object(ms))) == 1 + newline_text(o).len() + blen(
            members_rest(o, indent + indent_unit(o), ms, 0) + indent + seq!['}'],
        ),
{
    lemma_layout_ws(o, indent);
    let inner = indent + indent_unit(o);
    let nl = newline_text(o);
    let t = value_text(o, indent, ValueView::Object(ms));
    let rest = members_rest(o, inner, ms, 0) + indent + seq!['}'];
    lemma_members_split(o, inner, ms, 0);
    assert(members_text(o, inner, ms, 0) =~= Seq::<char>::empty());
    assert(t =~= (seq!['{'] + nl) + rest);
    lemma_holds_split(b, p, seq!['{'] + nl, rest);
    lemma_holds_split(b, p, seq!['{'], nl);
    lemma_ascii_char('{');
    lemma_byte_at(b, p, seq!['{']);
    lemma_skip_ws_text(b, p + 1, nl, seq![]);
}

/// An empty array or object written as two brackets reads back.
proof fn lemma_empty_reads(o: FormatOptions, indent: Seq<char>, v: ValueView, depth: int, b: Seq<u8>, p: int, pend: Seq<TriviaView>)
    requires
        v == ValueView::Array(seq![]) || v == ValueView::Object(seq![]),
        depth < MAX_DEPTH,
        holds_at(b, p, value_text(o, indent, v)),
    ensures
        value_at(b, p, pend, depth, true) == Ok::<(NodeView, int, Seq<TriviaView>), ParseFail>(
            (plain_node(v, pend), p + blen(value_text(o, indent, v)), seq![]),
        ),
{
    let t = value_text(o, indent, v);
    let (c0, c1) = if v is Array { ('[', ']') } else { ('{', '}') };
    reveal_strlit("[]");
    reveal_strlit("{}");
    assert(t =~= seq![c0] + seq![c1]);
    lemma_ascii_char(c0);
    lemma_ascii_char(c1);
    lemma_holds_split(b, p, seq![c0], seq![c1]);
    lemma_byte_at(b, p, seq![c0]);
    lemma_byte_at(b, p + 1, seq![c1]);
    lemma_skip_stops(b, p + 1, seq![]);
    if v is Array {
        lemma_array_opens(b, p, pend, depth);
        assert(elements_from(b, p + 1, seq![], depth + 1, seq![], true) == Ok::<
            (ValueView, int, Seq<TriviaView>),
            ParseFail,
        >((ValueView::Array(seq![]), p + 2, seq![])));
    } else {
        lemma_object_opens(b, p, pend, depth);
        assert(members_from(b, p + 1, seq![], depth + 1, seq![], true) == Ok::<
            (ValueView, int, Seq<TriviaView>),
            ParseFail,
        >((ValueView::Object(seq![]), p + 2, seq![])));
    }
}

/// The text of the `k`-th element's line and what follows it, piece by
/// piece: indentation, comments, value, then a comma and the next lines,
/// or, for the last element, whitespace and the closing bracket.
proof fn lemma_element_text(
    o: FormatOptions,
    inner: Seq<char>,
    indent: Seq<char>,
    items: Seq<NodeView>,
    k: int,
    b: Seq<u8>,
    q: int,
)
    requires
        ws_text(inner),
        ws_text(indent),
        0 <= k < items.len(),
        !items[k].comma,
        holds_at(b, q, elements_rest(o, inner, items, k) + indent + seq![']']),
    ensures
        ({
            let lead = leading_text(o, inner, items[k].trivia);
            let vt = value_text(o, inner, items[k].value);
            let nl = newline_text(o);
            let pl = q + inner.len();
            let pv = pl + blen(lead);
            let qv = pv + blen(vt);
            let tail = elements_rest(o, inner, items, k + 1) + indent + seq![']'];
            let whole = elements_rest(o, inner, items, k) + indent + seq![']'];
            &&& holds_at(b, q, inner)
            &&& holds_at(b, pl, lead)
            &&& holds_at(b, pv, vt)
            &&& ws_text(nl)
            &&& (k + 1 < items.len() ==> {
                &&& holds_at(b, qv, seq![','])
                &&& holds_at(b, qv + 1, nl)
                &&& holds_at(b, qv + 1 + nl.len(), tail)
                &&& q + blen(whole) == qv + 1 + nl.len() + blen(tail)
            })
            &&& (k + 1 == items.len() ==> {
                &&& ws_text(nl + indent)
                &&& holds_at(b, qv, (nl + indent) + seq![']'])
                &&& q + blen(whole) == qv + (nl + indent).len() + 1
            })
        }),
{
    let n = items[k];
    let lead = leading_text(o, inner, n.trivia);
    let vt = value_text(o, inner, n.value);
    let sep: Seq<char> = if k + 1 < items.len() {
        seq![',']
    } else {
        seq![]
    };
    let nl = newline_text(o);
    let tail = elements_rest(o, inner, items, k + 1) + indent + seq![']'];
    let whole = elements_rest(o, inner, items, k) + indent + seq![']'];
    lemma_layout_ws(o, inner);
    assert(node_text(o, inner, n) =~= lead + vt);
    assert(whole =~= inner + lead + vt + sep + nl + tail);
    lemma_holds_split(b, q, inner + lead + vt + sep + nl, tail);
    lemma_holds_split(b, q, inner + lead + vt + sep, nl);
    lemma_holds_split(b, q, inner + lead + vt, sep);
    lemma_holds_split(b, q, inner + lead, vt);
    lemma_holds_split(b, q, inner, lead);
    lemma_ws_bytes(inner);
    lemma_ws_bytes(nl);
    lemma_ascii_char(',');
    assert(encode_utf8(Seq::<char>::empty()) =~= Seq::<u8>::empty());
    if k + 1 == items.len() {
        assert(elements_rest(o, inner, items, k + 1) =~= Seq::<char>::empty());
        lemma_ws_concat(nl, indent);
        let qv = q + inner.len() + blen(lead) + blen(vt);
        lemma_holds_join(b, qv, nl, tail);
        assert(nl + tail =~= (nl + indent) + seq![']']);
        lemma_holds_split(b, qv, nl + indent, seq![']']);
        lemma_ws_bytes(nl + indent);
        lemma_ascii_char(']');
    }
}

/// The text of the `k`-th member's line and what follows it (see
/// [`lemma_element_text`]).
#[verifier::rlimit(40)]
proof fn lemma_member_text(
    o: FormatOptions,
    inner: Seq<char>,
    indent: Seq<char>,
    ms: Seq<EntryView>,
    k: int,
    b: Seq<u8>,
    q: int,
)
    requires
        ws_text(inner),
        ws_text(indent),
        0 <= k < ms.len(),
        !ms[k].value.comma,
        holds_at(b, q, members_rest(o, inner, ms, k) + indent + seq!['}']),
    ensures
        ({
            let lead = leading_text(o, inner, ms[k].key_trivia);
            let body = member_body(o, inner, ms[k]);
            let nl = newline_text(o);
            let pl = q + inner.len();
            let pk = pl + blen(lead);
            let qe = pk + blen(body);
            let tail = members_rest(o, inner, ms, k + 1) + indent + seq!['}'];
            let whole = members_rest(o, inner, ms, k) + indent + seq!['}'];
            &&& holds_at(b, q, inner)
            &&& holds_at(b, pl, lead)
            &&& holds_at(b, pk, body)
            &&& ws_text(nl)
            &&& (k + 1 < ms.len() ==> {
                &&& holds_at(b, qe, seq![','])
                &&& holds_at(b, qe + 1, nl)
                &&& holds_at(b, qe + 1 + nl.len(), tail)
                &&& q + blen(whole) == qe + 1 + nl.len() + blen(tail)
            })
            &&& (k + 1 == ms.len() ==> {
                &&& ws_text(nl + indent)
                &&& holds_at(b, qe, (nl + indent) + seq!['}'])
                &&& q + blen(whole) == qe + (nl + indent).len() + 1
            })
        }),
{
    let e = ms[k];
    let lead = leading_text(o, inner, e.key_trivia);
    let body = member_body(o, inner, e);
    let sep: Seq<char> = if k + 1 < ms.len() {
        seq![',']
    } else {
        seq![]
    };
    let nl = newline_text(o);
    let tail = members_rest(o, inner, ms, k + 1) + indent + seq!['}'];
    let whole = members_rest(o, inner, ms, k) + indent + seq!['}'];
    lemma_layout_ws(o, inner);
    assert(member_line(o, inner, ms, k) =~= inner + lead + body + sep + nl) by {
        assert(member_text(o, inner, e) =~= lead + body);
    }
    assert(whole =~= inner + lead + body + sep + nl + tail);
    lemma_holds_split(b, q, inner + lead + body + sep + nl, tail);
    lemma_holds_split(b, q, inner + lead + body + sep, nl);
    lemma_holds_split(b, q, inner + lead + body, sep);
    lemma_holds_split(b, q, inner + lead, body);
    lemma_holds_split(b, q, inner, lead);
    lemma_ws_bytes(inner);
    lemma_ws_bytes(nl);
    lemma_ascii_char(',');
    assert(encode_utf8(Seq::<char>::empty()) =~= Seq::<u8>::empty());
    if k + 1 == ms.len() {
        assert(members_rest(o, inner, ms, k + 1) =~= Seq::<char>::empty());
        lemma_ws_concat(nl, indent);
        let qe = q + inner.len() + blen(lead) + blen(body);
        lemma_holds_join(b, qe, nl, tail);
        assert(nl + tail =~= (nl + indent) + seq!['}']);
        lemma_holds_split(b, qe, nl + indent, seq!['}']);
        lemma_ws_bytes(nl + indent);
        lemma_ascii_char('}');
    }
}


/// From whitespace before the `k`-th element's line, skipping leads to its
/// value with its comments; after the value come a comma and the next
/// line, or, for the last element, whitespace and the closing bracket.
proof fn lemma_element_reach(
    o: FormatOptions,
    inner: Seq<char>,
    indent: Seq<char>,
    items: Seq<NodeView>,
    k: int,
    depth: int,
    b: Seq<u8>,
    pos: int,
    q: int,
) -> (r: (int, int))
    requires
        o.comment_policy == CommentPolicy::Keep,
        ws_text(inner),
        ws_text(indent),
        0 <= k < items.len(),
        printable_node(items[k], depth),
        0 <= pos <= q,
        forall|i: int| pos <= i < q ==> is_ws_byte(#[trigger] b[i]),
        holds_at(b, q, elements_rest(o, inner, items, k) + indent + seq![']']),
    ensures
        skip_trivia(b, pos, seq![]) == Ok::<(int, Seq<TriviaView>), ParseFail>(
            (r.0, items[k].trivia),
        ),
        q <= r.0 < r.1,
        r.0 < b.len(),
        b[r.0] != 0x5d,
        holds_at(b, r.0, value_text(o, inner, items[k].value)),
        r.1 == r.0 + blen(value_text(o, inner, items[k].value)),
        value_ends(b, r.1),
        k + 1 < items.len() ==> {
            &&& skip_trivia(b, r.1, seq![]) == Ok::<(int, Seq<TriviaView>), ParseFail>(
                (r.1, seq![]),
            )
            &&& b[r.1] == 0x2c
            &&& forall|i: int|
                r.1 + 1 <= i < r.1 + 1 + newline_text(o).len() ==> is_ws_byte(#[trigger] b[i])
            &&& holds_at(
                b,
                r.1 + 1 + newline_text(o).len(),
                elements_rest(o, inner, items, k + 1) + indent + seq![']'],
            )
            &&& q + blen(elements_rest(o, inner, items, k) + indent + seq![']']) == r.1 + 1
                + newline_text(o).len() + blen(
                elements_rest(o, inner, items, k + 1) + indent + seq![']'],
            )
        },
        k + 1 == items.len() ==> exists|e: int|
            {
                &&& r.1 <= e < b.len()
                &&& b[e] == 0x5d
                &&& skip_trivia(b, r.1, seq![]) == Ok::<(int, Seq<TriviaView>), ParseFail>(
                    (e, seq![]),
                )
                &&& q + blen(elements_rest(o, inner, items, k) + indent + seq![']']) == e + 1
            },
{
    let n = items[k];
    lemma_element_text(o, inner, indent, items, k, b, q);
    let lead = leading_text(o, inner, n.trivia);
    let vt = value_text(o, inner, n.value);
    let nl = newline_text(o);
    let pl = q + inner.len();
    let pv = pl + blen(lead);
    let qv = pv + blen(vt);
    lemma_skip_ws_run(b, pos, q - pos, seq![]);
    lemma_skip_ws_text(b, q, inner, seq![]);
    lemma_skip_leading(o, inner, n.trivia, b, pl, seq![]);
    assert(Seq::<TriviaView>::empty() + n.trivia =~= n.trivia);
    lemma_value_start(o, inner, n.value, depth);
    assert(b.subrange(pv, pv + blen(vt))[0] == b[pv]);
    lemma_skip_stops(b, pv, n.trivia);
    if k + 1 < items.len() {
        lemma_ascii_char(',');
        lemma_byte_at(b, qv, seq![',']);
        lemma_skip_stops(b, qv, seq![]);
        lemma_skip_ws_text(b, qv + 1, nl, seq![]);
    } else {
        lemma_ascii_char(']');
        lemma_ws_then(b, qv, nl + indent, ']', seq![]);
        let e = qv + (nl + indent).len();
        assert(qv <= e < b.len() && b[e] == 0x5d);
    }
    (pv, qv)
}

/// From whitespace before the `k`-th member's line, skipping leads to the
/// opening quote of its key with the comments before it (see
/// [`lemma_element_reach`]).
proof fn lemma_member_reach(
    o: FormatOptions,
    inner: Seq<char>,
    indent: Seq<char>,
    ms: Seq<EntryView>,
    k: int,
    b: Seq<u8>,
    pos: int,
    q: int,
) -> (r: (int, int))
    requires
        o.comment_policy == CommentPolicy::Keep,
        ws_text(inner),
        ws_text(indent),
        0 <= k < ms.len(),
        printable_comments(ms[k].key_trivia),
        !ms[k].value.comma,
        0 <= pos <= q,
        forall|i: int| pos <= i < q ==> is_ws_byte(#[trigger] b[i]),
        holds_at(b, q, members_rest(o, inner, ms, k) + indent + seq!['}']),
    ensures
        skip_trivia(b, pos, seq![]) == Ok::<(int, Seq<TriviaView>), ParseFail>(
            (r.0, ms[k].key_trivia),
        ),
        q <= r.0 < r.1,
        r.0 < b.len(),
        b[r.0] == 0x22,
        holds_at(b, r.0, member_body(o, inner, ms[k])),
        r.1 == r.0 + blen(member_body(o, inner, ms[k])),
        value_ends(b, r.1),
        k + 1 < ms.len() ==> {
            &&& skip_trivia(b, r.1, seq![]) == Ok::<(int, Seq<TriviaView>), ParseFail>(
                (r.1, seq![]),
            )
            &&& b[r.1] == 0x2c
            &&& forall|i: int|
                r.1 + 1 <= i < r.1 + 1 + newline_text(o).len() ==> is_ws_byte(#[trigger] b[i])
            &&& holds_at(
                b,
                r.1 + 1 + newline_text(o).len(),
                members_rest(o, inner, ms, k + 1) + indent + seq!['}'],
            )
            &&& q + blen(members_rest(o, inner, ms, k) + indent + seq!['}']) == r.1 + 1
                + newline_text(o).len() + blen(members_rest(o, inner, ms, k + 1) + indent + seq!['}'])
        },
        k + 1 == ms.len() ==> exists|e: int|
            {
                &&& r.1 <= e < b.len()
                &&& b[e] == 0x7d
                &&& skip_trivia(b, r.1, seq![]) == Ok::<(int, Seq<TriviaView>), ParseFail>(
                    (e, seq![]),
                )
                &&& q + blen(members_rest(o, inner, ms, k) + indent + seq!['}']) == e + 1
            },
{
    let m = ms[k];
    lemma_member_text(o, inner, indent, ms, k, b, q);
    let lead = leading_text(o, inner, m.key_trivia);
    let body = member_body(o, inner, m);
    let nl = newline_text(o);
    let pl = q + inner.len();
    let pk = pl + blen(lead);
    let qe = pk + blen(body);
    lemma_skip_ws_run(b, pos, q - pos, seq![]);
    lemma_skip_ws_text(b, q, inner, seq![]);
    lemma_skip_leading(o, inner, m.key_trivia, b, pl, seq![]);
    assert(Seq::<TriviaView>::empty() + m.key_trivia =~= m.key_trivia);
    lemma_ascii_char('"');
    assert(body[0] == '"');
    lemma_first_byte(body);
    lemma_byte_at(b, pk, body);
    lemma_skip_stops(b, pk, m.key_trivia);
    if k + 1 < ms.len() {
        lemma_ascii_char(',');
        lemma_byte_at(b, qe, seq![',']);
        lemma_skip_stops(b, qe, seq![]);
        lemma_skip_ws_text(b, qe + 1, nl, seq![]);
    } else {
        lemma_ascii_char('}');
        lemma_ws_then(b, qe, nl + indent, '}', seq![]);
        let e = qe + (nl + indent).len();
        assert(qe <= e < b.len() && b[e] == 0x7d);
    }
    (pk, qe)
}


// ---------------------------------------------------------------------------
// Reading back values, elements and members
// ---------------------------------------------------------------------------

/// A written value, arrays and objects included, reads back as itself with
/// the comments before it, the reader stopping right after it.
proof fn lemma_value_reads(
    o: FormatOptions,
    indent: Seq<char>,
    v: ValueView,
    depth: int,
    b: Seq<u8>,
    p: int,
    pend: Seq<TriviaView>,
)
    requires
        o.comment_policy == CommentPolicy::Keep,
        ws_text(indent),
        printable_value(v, depth),
        holds_at(b, p, value_text(o, indent, v)),
        value_ends(b, p + blen(value_text(o, indent, v))),
    ensures
        value_at(b, p, pend, depth, true) == Ok::<(NodeView, int, Seq<TriviaView>), ParseFail>(
            (plain_node(v, pend), p + blen(value_text(o, indent, v)), seq![]),
        ),
    decreases v, 0int,
{
    match v {
        ValueView::Array(items) => {
            if items.len() == 0 {
                assert(items =~= Seq::<NodeView>::empty());
                lemma_empty_reads(o, indent, v, depth, b, p, pend);
            } else {
                lemma_array_layout(o, indent, items, b, p);
                let nl = newline_text(o);
                lemma_elements_reads(
                    o,
                    indent + indent_unit(o),
                    indent,
                    items,
                    0,
                    depth + 1,
                    b,
                    p + 1,
                    p + 1 + nl.len(),
                );
                assert(items.take(0) =~= Seq::<NodeView>::empty());
                lemma_array_opens(b, p, pend, depth);
            }
        },
        ValueView::Object(ms) => {
            if ms.len() == 0 {
                assert(ms =~= Seq::<EntryView>::empty());
                lemma_empty_reads(o, indent, v, depth, b, p, pend);
            } else {
                lemma_object_layout(o, indent, ms, b, p);
                let nl = newline_text(o);
                lemma_members_reads(
                    o,
                    indent + indent_unit(o),
                    indent,
                    ms,
                    0,
                    depth + 1,
                    b,
                    p + 1,
                    p + 1 + nl.len(),
                );
                assert(ms.take(0) =~= Seq::<EntryView>::empty());
                lemma_object_opens(b, p, pend, depth);
            }
        },
        _ => lemma_scalar_at(o, indent, v, depth, b, p, pend),
    }
}

/// The elements of a written array from the `k`-th on read back, after
/// whitespace: the reader ends past the closing bracket with the whole
/// array.
proof fn lemma_elements_reads(
    o: FormatOptions,
    inner: Seq<char>,
    indent: Seq<char>,
    items: Seq<NodeView>,
    k: int,
    depth: int,
    b: Seq<u8>,
    pos: int,
    q: int,
)
    requires
        o.comment_policy == CommentPolicy::Keep,
        ws_text(inner),
        ws_text(indent),
        0 <= k < items.len(),
        forall|i: int| 0 <= i < items.len() ==> printable_node(#[trigger] items[i], depth),
        0 <= pos <= q,
        forall|i: int| pos <= i < q ==> is_ws_byte(#[trigger] b[i]),
        holds_at(b, q, elements_rest(o, inner, items, k) + indent + seq![']']),
    ensures
        elements_from(b, pos, seq![], depth, items.take(k), true) == Ok::<
            (ValueView, int, Seq<TriviaView>),
            ParseFail,
        >(
            (
                ValueView::Array(items),
                q + blen(elements_rest(o, inner, items, k) + indent + seq![']']),
                seq![],
            ),
        ),
    decreases items, items.len() - k,
{
    let n = items[k];
    assert(printable_node(n, depth));
    let (pv, qv) = lemma_element_reach(o, inner, indent, items, k, depth, b, pos, q);
    lemma_value_reads(o, inner, n.value, depth, b, pv, n.trivia);
    assert(plain_node(n.value, n.trivia) == n);
    if k + 1 < items.len() {
        let nl = newline_text(o);
        lemma_elements_reads(o, inner, indent, items, k + 1, depth, b, qv + 1, qv + 1 + nl.len());
        assert(items.take(k).push(n) =~= items.take(k + 1));
    } else {
        let e = choose|e: int|
            {
                &&& qv <= e < b.len()
                &&& b[e] == 0x5d
                &&& skip_trivia(b, qv, seq![]) == Ok::<(int, Seq<TriviaView>), ParseFail>(
                    (e, seq![]),
                )
                &&& q + blen(elements_rest(o, inner, items, k) + indent + seq![']']) == e + 1
            };
        lemma_elements_close(b, e, depth, items);
        assert(items.take(k).push(n) =~= items);
    }
}

/// A written member from the opening quote of its key: the key reads back,
/// a `:` follows, and skipping after it leads to the value with its
/// comments.
proof fn lemma_member_value_reach(
    o: FormatOptions,
    inner: Seq<char>,
    e: EntryView,
    depth: int,
    b: Seq<u8>,
    pk: int,
) -> (r: (int, int))
    requires
        o.comment_policy == CommentPolicy::Keep,
        ws_text(inner),
        printable_comments(e.value.trivia),
        printable_value(e.value.value, depth),
        !e.value.comma,
        holds_at(b, pk, member_body(o, inner, e)),
    ensures
        parse_string(b, pk) == Ok::<(Seq<char>, int), ParseFail>((e.key, r.0)),
        0 <= r.0 < b.len(),
        b[r.0] == 0x3a,
        skip_trivia(b, r.0, seq![]) == Ok::<(int, Seq<TriviaView>), ParseFail>((r.0, seq![])),
        skip_trivia(b, r.0 + 1, seq![]) == Ok::<(int, Seq<TriviaView>), ParseFail>(
            (r.1, e.value.trivia),
        ),
        holds_at(b, r.1, value_text(o, inner, e.value.value)),
        r.1 + blen(value_text(o, inner, e.value.value)) == pk + blen(member_body(o, inner, e)),
{
    let n = e.value;
    let kt = seq!['"'] + escaped(e.key) + seq!['"'];
    let sp: Seq<char> = if is_pretty(o) {
        seq![' ']
    } else {
        seq![]
    };
    let lead = leading_text(o, inner, n.trivia);
    let vt = value_text(o, inner, n.value);
    assert(node_text(o, inner, n) =~= lead + vt);
    assert(member_body(o, inner, e) =~= kt + seq![':'] + sp + lead + vt);
    lemma_holds_split(b, pk, kt + seq![':'] + sp + lead, vt);
    lemma_holds_split(b, pk, kt + seq![':'] + sp, lead);
    lemma_holds_split(b, pk, kt + seq![':'], sp);
    lemma_holds_split(b, pk, kt, seq![':']);
    assert(ws_text(sp));
    lemma_ws_bytes(sp);
    lemma_ascii_char(':');
    let kq = pk + blen(kt);
    let pl = kq + 1 + sp.len();
    let pv = pl + blen(lead);
    lemma_string_at(b, pk, e.key);
    lemma_byte_at(b, kq, seq![':']);
    lemma_skip_stops(b, kq, seq![]);
    lemma_skip_ws_text(b, kq + 1, sp, seq![]);
    lemma_skip_leading(o, inner, n.trivia, b, pl, seq![]);
    assert(Seq::<TriviaView>::empty() + n.trivia =~= n.trivia);
    lemma_value_start(o, inner, n.value, depth);
    assert(b.subrange(pv, pv + blen(vt))[0] == b[pv]);
    lemma_skip_stops(b, pv, n.trivia);
    (kq, pv)
}

/// A written member read from the opening quote of its key: the member
/// itself, and where skipping past its value leads.
proof fn lemma_member_reads(
    o: FormatOptions,
    inner: Seq<char>,
    e: EntryView,
    depth: int,
    b: Seq<u8>,
    pk: int,
)
    requires
        o.comment_policy == CommentPolicy::Keep,
        ws_text(inner),
        printable_entry(e, depth),
        holds_at(b, pk, member_body(o, inner, e)),
        value_ends(b, pk + blen(member_body(o, inner, e))),
    ensures
        member_at(b, pk, e.key_trivia, depth, true) == match skip_trivia(
            b,
            pk + blen(member_body(o, inner, e)),
            seq![],
        ) {
            Err(f) => Err(f),
            Ok((r, pend)) => Ok((e, r, pend)),
        },
    decreases e, 0int,
{
    let n = e.value;
    let (kq, pv) = lemma_member_value_reach(o, inner, e, depth, b, pk);
    lemma_value_reads(o, inner, n.value, depth, b, pv, n.trivia);
    assert(plain_node(n.value, n.trivia) == n);
    assert(value_from(b, kq + 1, seq![], depth, true) == Ok::<
        (NodeView, int, Seq<TriviaView>),
        ParseFail,
    >((n, pk + blen(member_body(o, inner, e)), seq![])));
}

/// The members of a written object from the `k`-th on read back, after
/// whitespace: the reader ends past the closing brace with the whole
/// object.
proof fn lemma_members_reads(
    o: FormatOptions,
    inner: Seq<char>,
    indent: Seq<char>,
    ms: Seq<EntryView>,
    k: int,
    depth: int,
    b: Seq<u8>,
    pos: int,
    q: int,
)
    requires
        o.comment_policy == CommentPolicy::Keep,
        ws_text(inner),
        ws_text(indent),
        0 <= k < ms.len(),
        forall|i: int| 0 <= i < ms.len() ==> printable_entry(#[trigger] ms[i], depth),
        distinct_keys(ms),
        0 <= pos <= q,
        forall|i: int| pos <= i < q ==> is_ws_byte(#[trigger] b[i]),
        holds_at(b, q, members_rest(o, inner, ms, k) + indent + seq!['}']),
    ensures
        members_from(b, pos, seq![], depth, ms.take(k), true) == Ok::<
            (ValueView, int, Seq<TriviaView>),
            ParseFail,
        >(
            (
                ValueView::Object(ms),
                q + blen(members_rest(o, inner, ms, k) + indent + seq!['}']),
                seq![],
            ),
        ),
    decreases ms, ms.len() - k,
{
    let m = ms[k];
    assert(printable_entry(m, depth));
    let (pk, qe) = lemma_member_reach(o, inner, indent, ms, k, b, pos, q);
    lemma_member_reads(o, inner, m, depth, b, pk);
    lemma_member_index(ms.take(k), m.key);
    if member_index(ms.take(k), m.key) >= 0 {
        assert(ms.take(k)[member_index(ms.take(k), m.key)] == ms[member_index(ms.take(k), m.key)]);
    }
    if k + 1 < ms.len() {
        let nl = newline_text(o);
        lemma_members_reads(o, inner, indent, ms, k + 1, depth, b, qe + 1, qe + 1 + nl.len());
        assert(ms.take(k).push(m) =~= ms.take(k + 1));
    } else {
        let e = choose|e: int|
            {
                &&& qe <= e < b.len()
                &&& b[e] == 0x7d
                &&& skip_trivia(b, qe, seq![]) == Ok::<(int, Seq<TriviaView>), ParseFail>(
                    (e, seq![]),
                )
                &&& q + blen(members_rest(o, inner, ms, k) + indent + seq!['}']) == e + 1
            };
        lemma_members_close(b, e, depth, ms);
        assert(ms.take(k).push(m) =~= ms);
    }
}


// ---------------------------------------------------------------------------
// Documents
// ---------------------------------------------------------------------------

/// Text written with comments kept, under any indentation, parses back to
/// the tree it was written from. This holds of every tree whose nodes have
/// no comma (the parser records none), whose comments read back as written
/// (no line break in a line comment, no `*/` in a block comment), whose
/// numbers kept as lexemes read back as themselves, whose arrays and
/// objects nest at most [`MAX_DEPTH`] levels deep, none of whose
/// objects has a key twice (the parser refuses a repeated key), and which
/// holds no deferred value (one is written as its raw text).
#[verifier::spinoff_prover]
#[verifier::rlimit(80)]
pub proof fn lemma_written_document_reads_back(o: FormatOptions, n: NodeView)
    requires
        o.comment_policy == CommentPolicy::Keep,
        printable_node(n, 0),
    ensures
        owned_document(encode_utf8(node_text(o, seq![], n))) == Ok::<NodeView, ParseFail>(n),
{
    let t = node_text(o, seq![], n);
    let b = encode_utf8(t);
    assert(holds_at(b, 0, t)) by {
        assert(b.subrange(0, b.len() as int) =~= b);
    }
    let lead = leading_text(o, seq![], n.trivia);
    let vt = value_text(o, seq![], n.value);
    assert(t =~= lead + vt);
    lemma_holds_split(b, 0, lead, vt);
    assert(ws_text(Seq::<char>::empty()));
    lemma_skip_leading(o, seq![], n.trivia, b, 0, seq![]);
    let pv = blen(lead);
    lemma_value_start(o, seq![], n.value, 0);
    assert(b.subrange(pv, pv + blen(vt))[0] == b[pv]);
    lemma_skip_stops(b, pv, n.trivia);
    assert(Seq::<TriviaView>::empty() + n.trivia =~= n.trivia);
    lemma_value_reads(o, seq![], n.value, 0, b, pv, n.trivia);
    assert(plain_node(n.value, n.trivia) == n);
    assert(value_from(b, 0, seq![], 0, true) == Ok::<(NodeView, int, Seq<TriviaView>), ParseFail>(
        (n, b.len() as int, seq![]),
    ));
    assert(with_comments(n, seq![]) =~= n);
}


/// A string written as the serializer writes it, a quote, the escaped text
/// and a quote, reads back as the text, the reader stopping after the
/// closing quote.
pub proof fn lemma_parse_escaped(s: Seq<char>)
    ensures
        parse_string(encode_utf8(seq!['"'] + escaped(s) + seq!['"']), 0) == Ok::<
            (Seq<char>, int),
            ParseFail,
        >((s, encode_utf8(seq!['"'] + escaped(s) + seq!['"']).len() as int)),
{
    let b = encode_utf8(seq!['"'] + escaped(s) + seq!['"']);
    assert(b.subrange(0, b.len() as int) =~= b);
    lemma_string_at(b, 0, s);
}

/// A document that is one string as the serializer writes it parses back to
/// a node holding that text, with no comments and no comma.
pub proof fn lemma_document_of_escaped(s: Seq<char>)
    ensures
        owned_document(encode_utf8(seq!['"'] + escaped(s) + seq!['"'])) == Ok::<
            NodeView,
            ParseFail,
        >(plain_node(ValueView::String(s), seq![])),
{
    let o = FormatOptions { indentation: Indentation::Minified, comment_policy: CommentPolicy::Keep };
    let n = plain_node(ValueView::String(s), seq![]);
    assert(printable_comments(n.trivia));
    lemma_written_document_reads_back(o, n);
    assert(node_text(o, seq![], n) =~= seq!['"'] + escaped(s) + seq!['"']);
}

} // verus!
