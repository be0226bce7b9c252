//! What the three readers have in common: a literal reads as the value it
//! writes whichever parser reads it, the single-pass and owned parsers read
//! every scalar alike, the lazy tree copied into an owned value agrees with
//! the owned parser, and lazy keys are decoded.

use vstd::prelude::*;
use vstd::utf8::*;
use crate::ast::{NodeView, NumberView, TriviaView, ValueView};
use crate::lazy_parser::{has_keyword, kw_false, kw_null, kw_true, parse_key, parse_scalar};
use crate::lazy_val::{
    NodeModel, Unescaped, ValModel, owned_of, unescape,
};
use crate::parser::{owned_scalar, parse_number};
use crate::parser_core::{
    ParseFail, digits_start, integer_lexeme_i64, is_frac_or_exp_byte, number_end,
    text_of,
};
use crate::single_pass_parser::spp_scalar;
use crate::lazy_val::{
    EscapeStep, backslash_from, escape_step, lemma_backslash_from, lemma_escape_step,
    lemma_prepend_assoc, prepend, unescape_from,
};
use crate::parser::{char_at, escape_at, parse_string, string_rest};
use crate::text::{boundary_at, lemma_after_ascii, lemma_boundary, lemma_next_boundary};
use crate::simd::{ByteClass, lemma_first_match, string_end_from};
use crate::parser_core::{first_control, scan_string_end};

verus! {

/// The literals `true`, `false` and `null` read as the values they write,
/// in each of the three parsers: the owned one, the single-pass one and the
/// lazy one, which all continue right after the literal.
pub proof fn lemma_literals_read_as_written(b: Seq<u8>, p: int, t: Seq<TriviaView>)
    requires
        0 <= p < b.len(),
    ensures
        has_keyword(b, p, kw_true()) ==> ({
            &&& owned_scalar(b, p, t) == Ok::<(NodeView, int), ParseFail>(
                (NodeView { value: ValueView::Bool(true), trivia: t, comma: false }, p + 4),
            )
            &&& spp_scalar(b, p, t) == owned_scalar(b, p, t)
            &&& parse_scalar(b, p, t) == Ok::<(NodeModel, int), ParseFail>(
                (NodeModel { value: ValModel::Bool(true), trivia: t }, p + 4),
            )
        }),
        has_keyword(b, p, kw_false()) ==> ({
            &&& owned_scalar(b, p, t) == Ok::<(NodeView, int), ParseFail>(
                (NodeView { value: ValueView::Bool(false), trivia: t, comma: false }, p + 5),
            )
            &&& spp_scalar(b, p, t) == owned_scalar(b, p, t)
            &&& parse_scalar(b, p, t) == Ok::<(NodeModel, int), ParseFail>(
                (NodeModel { value: ValModel::Bool(false), trivia: t }, p + 5),
            )
        }),
        has_keyword(b, p, kw_null()) ==> ({
            &&& owned_scalar(b, p, t) == Ok::<(NodeView, int), ParseFail>(
                (NodeView { value: ValueView::Null, trivia: t, comma: false }, p + 4),
            )
            &&& spp_scalar(b, p, t) == owned_scalar(b, p, t)
            &&& parse_scalar(b, p, t) == Ok::<(NodeModel, int), ParseFail>(
                (NodeModel { value: ValModel::Null, trivia: t }, p + 4),
            )
        }),
{
    if has_keyword(b, p, kw_true()) {
        assert(b[p] == b.subrange(p, p + 4)[0]);
    }
    if has_keyword(b, p, kw_false()) {
        assert(b[p] == b.subrange(p, p + 5)[0]);
    }
    if has_keyword(b, p, kw_null()) {
        assert(b[p] == b.subrange(p, p + 4)[0]);
    }
}

/// The single-pass parser reads every scalar as the owned parser does: the
/// same value, the same end, and the same failure, at every offset of every
/// input.
pub proof fn lemma_spp_scalar_is_owned_scalar(b: Seq<u8>, p: int, t: Seq<TriviaView>)
    ensures
        spp_scalar(b, p, t) == owned_scalar(b, p, t),
{
}

/// A lexeme that reads as an `i64` has no fraction, exponent or inner sign.
proof fn lemma_integer_has_no_fraction(b: Seq<u8>, p: int, q: int)
    requires
        0 <= p < q <= b.len(),
        integer_lexeme_i64(b.subrange(p, q)) is Some,
    ensures
        forall|i: int| p < i < q ==> !is_frac_or_exp_byte(#[trigger] b[i]),
{
    let lex = b.subrange(p, q);
    crate::parser_core::lemma_integer_lexeme_i64(lex);
    let d = digits_start(lex);
    assert forall|i: int| p < i < q implies !is_frac_or_exp_byte(#[trigger] b[i]) by {
        assert(lex[i - p] == b[i]);
        assert(i - p >= d);
        assert(lex.skip(d)[i - p - d] == lex[i - p]);
    }
}

/// Copying a lazy scalar into an owned value gives what the owned parser
/// reads at the same place: wherever both parsers read a literal or a
/// number at `p`, they end at the same offset and the lazy value, made
/// owned, is the owned parser's value.
pub proof fn lemma_lazy_scalar_agrees_with_owned(b: Seq<u8>, p: int, t: Seq<TriviaView>)
    requires
        0 <= p < b.len(),
        b[p] != 0x22,
    ensures
        parse_scalar(b, p, t) matches Ok((m, q)) ==> (owned_scalar(b, p, t) matches Ok((n, q2))
            ==> q == q2 && owned_of(m.value) == n.value),
{
    lemma_literals_read_as_written(b, p, t);
    let c = b[p];
    if c == 0x2d || (0x30 <= c <= 0x39) {
        let q = number_end(b, p + 1);
        crate::parser_core::lemma_number_end(b, p + 1);
        let lex = b.subrange(p, q);
        if let Ok((nv, q2)) = parse_number(b, p) {
            if integer_lexeme_i64(lex) is Some {
                lemma_integer_has_no_fraction(b, p, q);
            }
            assert(text_of(b, p, q) == decode_utf8(lex));
        }
    }
}

/// Copying a lazy value into an owned one keeps what each accessor reads:
/// `null` stays null, a boolean keeps its truth value, a number is the
/// `i64` its lexeme denotes when it is one and its lexeme otherwise, a
/// string is its decoded text, an array keeps its length and each element
/// (made owned) in order, and an object keeps its length and each key and
/// value (made owned) in order; no comments are copied.
pub proof fn lemma_to_value_keeps_readings(m: ValModel)
    ensures
        owned_of(m) is Null <==> m is Null,
        forall|x: bool| owned_of(m) == ValueView::Bool(x) <==> m == ValModel::Bool(x),
        m matches ValModel::Number(lex) ==> match integer_lexeme_i64(lex) {
            Some(n) => owned_of(m) == ValueView::Number(NumberView::Int(n)),
            None => owned_of(m) == ValueView::Number(NumberView::Float(decode_utf8(lex))),
        },
        m matches ValModel::String(raw) ==> (unescape(raw) matches Unescaped::Text(s)
            ==> owned_of(m) == ValueView::String(s)),
        m matches ValModel::Array(items) ==> owned_of(m) matches ValueView::Array(out) && out.len()
            == items.len() && forall|i: int|
            0 <= i < items.len() ==> #[trigger] out[i] == (NodeView {
                value: owned_of(items[i].value),
                trivia: seq![],
                comma: false,
            }),
        m matches ValModel::Object(es) ==> owned_of(m) matches ValueView::Object(out) && out.len()
            == es.len() && forall|i: int|
            0 <= i < es.len() ==> #[trigger] out[i].key == es[i].key && out[i].key_trivia
                == Seq::<TriviaView>::empty() && out[i].value.value == owned_of(es[i].value.value),
{
}

/// A lazy member's key is the decoded text of its string: the key reader
/// succeeds exactly when the bytes between the quotes decode, and then the
/// key is their decoded text, which ends at a closing quote. A key with no
/// backslash is its bytes read as text.
pub proof fn lemma_lazy_keys_are_decoded(b: Seq<u8>, p: int)
    requires
        0 <= p,
    ensures
        parse_key(b, p) matches Ok((k, e)) ==> (p < e < b.len() && b[e] == 0x22 && unescape(
            b.subrange(p + 1, e),
        ) == Unescaped::Text(k)),
        parse_key(b, p) matches Ok((k, e)) ==> ((forall|i: int| p < i < e ==> #[trigger] b[i]
            != 0x5c) && valid_utf8(b.subrange(p + 1, e)) ==> k == decode_utf8(b.subrange(p + 1, e))),
{
    crate::parser_core::lemma_scan_string_end(b, p + 1);
    if let Ok((k, e)) = parse_key(b, p) {
        let raw = b.subrange(p + 1, e);
        if (forall|i: int| p < i < e ==> #[trigger] b[i] != 0x5c) && valid_utf8(raw) {
            assert forall|j: int| 0 <= j < raw.len() implies #[trigger] raw[j] != 0x5c by {
                assert(raw[j] == b[p + 1 + j]);
            }
            crate::lazy_val::lemma_unescape_plain(raw);
        }
    }
}

// ---------------------------------------------------------------------------
// Lazy strings and owned strings
// ---------------------------------------------------------------------------

/// The bytes between two character boundaries of UTF-8 are UTF-8.
proof fn lemma_valid_between(b: Seq<u8>, x: int, y: int)
    requires
        valid_utf8(b),
        x <= y,
        boundary_at(b, x),
        boundary_at(b, y),
    ensures
        valid_utf8(b.subrange(x, y)),
{
    lemma_boundary(b, x);
    valid_utf8_split(b, x);
    let tail = b.subrange(x, b.len() as int);
    assert(boundary_at(tail, y - x)) by {
        if y < b.len() {
            assert(tail[y - x] == b[y]);
        }
    }
    lemma_boundary(tail, y - x);
    valid_utf8_split(tail, y - x);
    assert(tail.subrange(0, y - x) =~= b.subrange(x, y));
}

/// Every offset of a run without a backslash finds the same next one.
proof fn lemma_backslash_run(b: Seq<u8>, m: int, k: int)
    requires
        0 <= m <= k <= b.len(),
        k == b.len() || b[k] == 0x5c,
        forall|i: int| m <= i < k ==> #[trigger] b[i] != 0x5c,
    ensures
        backslash_from(b, m) == k,
    decreases k - m,
{
    if m < k {
        lemma_backslash_run(b, m + 1, k);
    }
}

/// The first character of bytes is read from its own bytes alone.
proof fn lemma_first_scalar_prefix(x: Seq<u8>, y: Seq<u8>)
    requires
        valid_first_scalar(x),
        length_of_first_scalar(x) <= y.len(),
        forall|k: int| 0 <= k < length_of_first_scalar(x) ==> #[trigger] x[k] == y[k],
    ensures
        valid_first_scalar(y),
        length_of_first_scalar(y) == length_of_first_scalar(x),
        decode_first_scalar(y) == decode_first_scalar(x),
{
    let l = length_of_first_scalar(x);
    assert(x[0] == y[0]);
    if l >= 2 {
        assert(x[1] == y[1]);
    }
    if l >= 3 {
        assert(x[2] == y[2]);
    }
    if l >= 4 {
        assert(x[3] == y[3]);
    }
}

/// The bytes after the first of a character are continuation bytes, so no
/// backslash stands among them.
proof fn lemma_no_backslash_inside(x: Seq<u8>, k: int)
    requires
        valid_first_scalar(x),
        0 < k < length_of_first_scalar(x),
    ensures
        x[k] != 0x5c,
{
}

/// Outside escapes, decoding takes one character at a time: the character
/// at `j`, then the rest from the next character.
proof fn lemma_unescape_one_char(bs: Seq<u8>, j: int)
    requires
        valid_utf8(bs),
        0 <= j < bs.len(),
        boundary_at(bs, j),
        bs[j] != 0x5c,
    ensures
        ({
            let w = length_of_first_scalar(bs.subrange(j, bs.len() as int));
            &&& 1 <= w
            &&& j + w <= bs.len()
            &&& boundary_at(bs, j + w)
            &&& unescape_from(bs, j) == prepend(seq![char_at(bs, j)], unescape_from(bs, j + w))
        }),
{
    let x = bs.subrange(j, bs.len() as int);
    lemma_next_boundary(bs, j);
    let w = length_of_first_scalar(x);
    let k = backslash_from(bs, j);
    lemma_backslash_from(bs, j);
    assert(k > j);
    if k < j + w {
        assert(x[k - j] == bs[k]);
        lemma_no_backslash_inside(x, k - j);
    }
    assert(j + w <= k);
    assert(boundary_at(bs, k));
    lemma_valid_between(bs, j, k);
    let t = bs.subrange(j, k);
    assert forall|m: int| 0 <= m < w implies #[trigger] x[m] == t[m] by {
        assert(x[m] == bs[j + m]);
        assert(t[m] == bs[j + m]);
    }
    lemma_first_scalar_prefix(x, t);
    assert(decode_utf8(t) == seq![decode_first_scalar(t) as char] + decode_utf8(pop_first_scalar(t)));
    assert(pop_first_scalar(t) =~= bs.subrange(j + w, k));
    assert(char_at(bs, j) == decode_first_scalar(x) as char);
    if j + w == k {
        assert(bs.subrange(j + w, k) =~= Seq::<u8>::empty());
        assert(decode_utf8(bs.subrange(j + w, k)) =~= Seq::<char>::empty());
        assert(seq![char_at(bs, j)] + Seq::<char>::empty() =~= seq![char_at(bs, j)]);
    } else {
        assert(bs[j + w] != 0x5c);
        lemma_backslash_run(bs, j + w, k);
        lemma_prepend_assoc(seq![char_at(bs, j)], decode_utf8(bs.subrange(j + w, k)), unescape_from(bs, k));
    }
}

/// An escape that both readers decode stands for the same character and
/// ends at the same place, whether read within the string's bytes alone or
/// within the whole input.
proof fn lemma_escapes_agree(b: Seq<u8>, c: int, e: int, j: int)
    requires
        0 <= c <= e < b.len(),
        0 <= j < e - c,
        b[c + j] == 0x5c,
        escape_step(b.subrange(c, e), j) is Char,
        escape_at(b, c + j) is Ok,
    ensures
        ({
            let (ch, n) = escape_at(b, c + j)->Ok_0;
            escape_step(b.subrange(c, e), j) == EscapeStep::Char(ch, n - c)
        }),
{
    let bs = b.subrange(c, e);
    let i = c + j;
    assert(bs[j] == b[i]);
    assert(j + 1 < bs.len());
    assert(bs[j + 1] == b[i + 1]);
    if crate::lazy_val::simple_escape(bs[j + 1]) is None {
        assert(j + 6 <= bs.len());
        assert(bs.subrange(j + 2, j + 6) =~= b.subrange(i + 2, i + 6));
        assert(b.subrange(i + 2, i + 6)[0] == b[i + 2]);
        assert(b.subrange(i + 2, i + 6)[1] == b[i + 3]);
        assert(b.subrange(i + 2, i + 6)[2] == b[i + 4]);
        assert(b.subrange(i + 2, i + 6)[3] == b[i + 5]);
        if j + 12 <= bs.len() {
            assert(bs[j + 6] == b[i + 6]);
            assert(bs[j + 7] == b[i + 7]);
            assert(bs.subrange(j + 8, j + 12) =~= b.subrange(i + 8, i + 12));
            assert(b.subrange(i + 8, i + 12)[0] == b[i + 8]);
            assert(b.subrange(i + 8, i + 12)[1] == b[i + 9]);
            assert(b.subrange(i + 8, i + 12)[2] == b[i + 10]);
            assert(b.subrange(i + 8, i + 12)[3] == b[i + 11]);
        }
        if j + 8 <= bs.len() {
            assert(bs[j + 6] == b[i + 6]);
            assert(bs[j + 7] == b[i + 7]);
        }
    }
}

/// From offset `j` of the string's bytes on, the owned reader, when it ends
/// at the string's closing quote, decodes what the lazy decoder decodes.
#[verifier::spinoff_prover]
#[verifier::rlimit(80)]
proof fn lemma_rest_agrees(b: Seq<u8>, c: int, e: int, j: int, acc: Seq<char>)
    requires
        0 <= c <= e < b.len(),
        b[e] == 0x22,
        valid_utf8(b.subrange(c, e)),
        0 <= j <= e - c,
        boundary_at(b.subrange(c, e), j),
        unescape_from(b.subrange(c, e), j) is Text,
        string_rest(b, c + j, acc) matches Ok((_, q)) && q == e + 1,
    ensures
        string_rest(b, c + j, acc) == Ok::<(Seq<char>, int), ParseFail>(
            (acc + unescape_from(b.subrange(c, e), j)->Text_0, e + 1),
        ),
    decreases e - c - j,
{
    let bs = b.subrange(c, e);
    let i = c + j;
    if j == e - c {
        assert(acc + Seq::<char>::empty() =~= acc);
    } else {
        assert(bs[j] == b[i]);
        if b[i] == 0x5c {
            lemma_escape_step(bs, j);
            crate::parser::lemma_escape_at(b, i);
            if let EscapeStep::Char(ch, n) = escape_step(bs, j) {
                lemma_escapes_agree(b, c, e, j);
                lemma_after_ascii(bs, n);
                lemma_rest_agrees(b, c, e, n, acc.push(ch));
                let t1 = unescape_from(bs, n)->Text_0;
                assert(acc.push(ch) + t1 =~= acc + (seq![ch] + t1));
            }
        } else if b[i] != 0x22 {
            lemma_unescape_one_char(bs, j);
            lemma_next_boundary(bs, j);
            let x = bs.subrange(j, bs.len() as int);
            let y = b.subrange(i, b.len() as int);
            let w = length_of_first_scalar(x);
            assert forall|m: int| 0 <= m < w implies #[trigger] x[m] == y[m] by {
                assert(x[m] == bs[j + m]);
                assert(bs[j + m] == b[i + m]);
            }
            lemma_first_scalar_prefix(x, y);
            assert(char_at(b, i) == char_at(bs, j));
            let ch = char_at(bs, j);
            lemma_rest_agrees(b, c, e, j + w, acc.push(ch));
            let t1 = unescape_from(bs, j + w)->Text_0;
            assert(acc.push(ch) + t1 =~= acc + (seq![ch] + t1));
        }
    }
}

/// The lazy parser reads a string as the owned parser does: where both
/// read the string that opens at `p` and stop at the same closing quote,
/// the lazy reader's decoded text (a member's key, or a string value made
/// owned) is the owned parser's text.
pub proof fn lemma_lazy_strings_read_as_owned(b: Seq<u8>, p: int)
    requires
        valid_utf8(b),
        0 <= p < b.len(),
        b[p] == 0x22,
    ensures
        parse_key(b, p) matches Ok((k, e)) ==> (parse_string(b, p) matches Ok((s, q)) ==> (q == e
            + 1 ==> s == k)),
{
    let c = p + 1;
    crate::parser_core::lemma_scan_string_end(b, c);
    if let Ok((k, e)) = parse_key(b, p) {
        if let Ok((s, q)) = parse_string(b, p) {
            if q == e + 1 {
                let bs = b.subrange(c, e);
                lemma_after_ascii(b, c);
                assert(boundary_at(b, e));
                lemma_valid_between(b, c, e);
                let end = string_end_from(b, c);
                lemma_first_match(b, c, ByteClass::StringStop);
                if end < b.len() && b[end] == 0x22 && first_control(b, c, end) == -1 {
                    assert(end == e);
                    assert forall|m: int| 0 <= m < bs.len() implies #[trigger] bs[m] != 0x5c by {
                        assert(bs[m] == b[c + m]);
                    }
                    crate::lazy_val::lemma_unescape_plain(bs);
                } else {
                    assert(end < b.len());
                    assert(b[end] == 0x5c);
                    assert(end < e) by {
                        if b[end] == 0x5c && end + 1 < b.len() {
                            if b[end + 1] == 0x75 {
                                crate::parser_core::lemma_scan_string_end(b, end + 6);
                            } else {
                                crate::parser_core::lemma_scan_string_end(b, end + 2);
                            }
                        }
                    }
                    let jj = end - c;
                    assert(bs[jj] == b[end]);
                    assert forall|m: int| 0 <= m < jj implies #[trigger] bs[m] != 0x5c by {
                        assert(bs[m] == b[c + m]);
                    }
                    if jj > 0 {
                        lemma_backslash_run(bs, 0, jj);
                    }
                    assert(bs.subrange(0, jj) =~= b.subrange(c, end));
                    assert(b.subrange(c, c) =~= Seq::<u8>::empty());
                    assert(unescape_from(bs, jj) is Text);
                    lemma_rest_agrees(b, c, e, jj, text_of(b, c, end));
                    if jj == 0 {
                        assert(decode_utf8(Seq::<u8>::empty()) =~= Seq::<char>::empty());
                        assert(text_of(b, c, end) + unescape_from(bs, jj)->Text_0
                            =~= unescape_from(bs, jj)->Text_0);
                    }
                }
            }
        }
    }
}

/// Copying a lazy string into an owned value gives what the owned parser
/// reads at the same place: where both read the string at `p`, stop at
/// the same quote and its escapes decode, the lazy value made owned is the
/// owned parser's value.
pub proof fn lemma_lazy_string_agrees_with_owned(b: Seq<u8>, p: int, t: Seq<TriviaView>)
    requires
        valid_utf8(b),
        0 <= p < b.len(),
        b[p] == 0x22,
    ensures
        parse_scalar(b, p, t) matches Ok((m, q)) ==> (owned_scalar(b, p, t) matches Ok((n, q2))
            ==> (q == q2 ==> (m.value matches ValModel::String(raw) ==> (unescape(raw) is Text
            ==> owned_of(m.value) == n.value)))),
{
    lemma_lazy_strings_read_as_owned(b, p);
}

} // verus!
