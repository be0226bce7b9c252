//! Character and string helpers shared by the parsers and the formatters:
//! the few calls into std that vstd does not describe, and verified
//! conversions between `&str`, `String`, characters and bytes.

use vstd::prelude::*;
use vstd::string::StringExecFns;
use vstd::string::StringSliceAdditionalSpecFns;
use vstd::utf8::*;

verus! {

broadcast use vstd::string::group_string_axioms;

/// The characters with the Unicode White_Space property: the controls
/// U+0009..=U+000D, the space, U+0085, the no-break space U+00A0, U+1680,
/// the spaces U+2000..=U+200A, the line and paragraph separators U+2028 and
/// U+2029, U+202F, U+205F and U+3000.
pub open spec fn unicode_whitespace(c: char) -> bool {
    let v = c as u32;
    ||| 0x09 <= v <= 0x0D
    ||| v == 0x20
    ||| v == 0x85
    ||| v == 0xA0
    ||| v == 0x1680
    ||| 0x2000 <= v <= 0x200A
    ||| v == 0x2028
    ||| v == 0x2029
    ||| v == 0x202F
    ||| v == 0x205F
    ||| v == 0x3000
}

/// What `format!("{:?}", c)` produces for `c`.
pub uninterp spec fn char_debug_text(c: char) -> Seq<char>;

/// Whether `c` has the Unicode White_Space property, as `char::is_whitespace`
/// answers: one of the characters [`unicode_whitespace`] lists.
pub fn is_whitespace(c: char) -> (r: bool)
    ensures
        r == unicode_whitespace(c),
{
    let v = c as u32;
    (0x09 <= v && v <= 0x0D) || v == 0x20 || v == 0x85 || v == 0xA0 || v == 0x1680 || (0x2000 <= v
        && v <= 0x200A) || v == 0x2028 || v == 0x2029 || v == 0x202F || v == 0x205F || v == 0x3000
}

/// What `format!("{:?}", s)` produces for the text `s`.
pub uninterp spec fn str_debug_text(s: Seq<char>) -> Seq<char>;

/// `format!("{:?}", s)`: the text quoted and escaped as Rust's `Debug` writes
/// it. The contract names the text; its exact escaping is not restated.
#[verifier::external_body]
pub fn debug_str(s: &str) -> (r: String)
    ensures
        r@ == str_debug_text(s@),
{
    format!("{s:?}")
}

/// `format!("{:?}", c)`: the character quoted and escaped as Rust's `Debug`
/// writes it. The contract names the text; its exact escaping is not restated.
#[verifier::external_body]
pub fn debug_char(c: char) -> (r: String)
    ensures
        r@ == char_debug_text(c),
{
    format!("{c:?}")
}

/// `String::push`: appends one character.
#[verifier::external_body]
pub fn push_char(s: &mut String, c: char)
    ensures
        final(s)@ == old(s)@.push(c),
{
    s.push(c);
}

/// `char::from_u32`: the character with scalar value `v`, if `v` is a Unicode
/// scalar value (at most 0x10FFFF and outside the surrogates 0xD800..=0xDFFF).
#[verifier::external_body]
pub fn char_from_u32(v: u32) -> (r: Option<char>)
    ensures
        r is Some <==> is_scalar_value(v as int),
        r matches Some(c) ==> c as u32 == v && c == v as char,
{
    char::from_u32(v)
}

/// A Unicode scalar value: a code point that is not a surrogate.
pub open spec fn is_scalar_value(v: int) -> bool {
    0 <= v <= 0x10FFFF && !(0xD800 <= v <= 0xDFFF)
}

/// A `String` holding exactly `s`.
pub fn to_owned_string(s: &str) -> (r: String)
    ensures
        r@ == s@,
{
    s.to_owned()
}

/// Appends all of `tail` to `s`.
pub fn append_str(s: &mut String, tail: &str)
    ensures
        final(s)@ == old(s)@ + tail@,
{
    s.append(tail);
}

/// The characters of `s`, in order.
pub fn chars_of(s: &str) -> (v: Vec<char>)
    ensures
        v@ == s@,
{
    let mut v: Vec<char> = Vec::new();
    for c in it: s.chars()
        invariant
            v@ == it.seq().take(it.index()),
            it.seq() == s@,
    {
        v.push(c);
    }
    v
}

/// A `String` made of the characters `chars[from..to]`.
pub fn string_from_chars(chars: &Vec<char>, from: usize, to: usize) -> (r: String)
    requires
        from <= to <= chars.len(),
    ensures
        r@ == chars@.subrange(from as int, to as int),
{
    let mut r = String::new();
    let mut i = from;
    while i < to
        invariant
            from <= i <= to <= chars.len(),
            r@ == chars@.subrange(from as int, i as int),
        decreases to - i,
    {
        push_char(&mut r, chars[i]);
        assert(chars@.subrange(from as int, i + 1) =~= chars@.subrange(from as int, i as int).push(chars@[i as int]));
        i += 1;
    }
    r
}

/// The bytes of a string are valid UTF-8 and decode back to its characters.
pub proof fn lemma_str_bytes(s: &str)
    ensures
        valid_utf8(s.spec_bytes()),
        decode_utf8(s.spec_bytes()) == s@,
        s.spec_bytes().len() >= s@.len(),
{
    encode_utf8_valid_utf8(s@);
    encode_utf8_decode_utf8(s@);
    lemma_decode_len(s.spec_bytes());
}

/// Decoding never yields more characters than there are bytes.
pub proof fn lemma_decode_len(b: Seq<u8>)
    requires
        valid_utf8(b),
    ensures
        decode_utf8(b).len() <= b.len(),
    decreases b.len(),
{
    if b.len() > 0 {
        let rest = pop_first_scalar(b);
        assert(rest.len() < b.len());
        lemma_decode_len(rest);
    }
}

/// A position of valid UTF-8 is a character boundary exactly when it is the
/// end or does not hold a continuation byte; in particular next to an ASCII byte.
pub open spec fn boundary_at(b: Seq<u8>, i: int) -> bool {
    0 <= i <= b.len() && (i == b.len() || !is_continuation_byte(b[i]))
}

pub proof fn lemma_boundary(b: Seq<u8>, i: int)
    requires
        valid_utf8(b),
        boundary_at(b, i),
    ensures
        is_char_boundary(b, i),
{
    if i == b.len() {
        is_char_boundary_start_end_of_seq(b);
    } else {
        is_char_boundary_iff_not_is_continuation_byte(b, i);
    }
}

/// The piece `s[from..to]` of a string, by byte offsets that are character
/// boundaries.
pub fn substr<'a>(s: &'a str, from: usize, to: usize) -> (r: &'a str)
    requires
        from <= to <= s.spec_bytes().len(),
        boundary_at(s.spec_bytes(), from as int),
        boundary_at(s.spec_bytes(), to as int),
    ensures
        r.spec_bytes() == s.spec_bytes().subrange(from as int, to as int),
        r@ == decode_utf8(s.spec_bytes().subrange(from as int, to as int)),
{
    proof {
        lemma_str_bytes(s);
        lemma_boundary(s.spec_bytes(), to as int);
    }
    let (head, _) = s.split_at(to);
    proof {
        lemma_str_bytes(head);
        let hb = head.spec_bytes();
        assert(hb =~= s.spec_bytes().subrange(0, to as int));
        if from < to {
            assert(hb[from as int] == s.spec_bytes()[from as int]);
        }
        assert(boundary_at(hb, from as int));
        lemma_boundary(hb, from as int);
    }
    let (_, piece) = head.split_at(from);
    proof {
        lemma_str_bytes(piece);
        assert(piece.spec_bytes() =~= s.spec_bytes().subrange(from as int, to as int));
    }
    piece
}

/// Decimal digits of `n`, most significant first, without sign or padding.
pub open spec fn decimal(n: nat) -> Seq<char>
    decreases n,
{
    if n < 10 {
        seq![digit_char(n)]
    } else {
        decimal(n / 10).push(digit_char(n % 10))
    }
}

pub open spec fn digit_char(d: nat) -> char {
    ((d + 48) as u8) as char
}

/// `n` written in decimal, as `format!("{n}")` writes it.
pub fn u64_to_decimal(n: u64) -> (r: String)
    ensures
        r@ == decimal(n as nat),
    decreases n,
{
    if n < 10 {
        let mut r = String::new();
        push_char(&mut r, ((n as u8) + 48) as char);
        r
    } else {
        let mut r = u64_to_decimal(n / 10);
        push_char(&mut r, (((n % 10) as u8) + 48) as char);
        r
    }
}

/// `n` written in decimal, as `format!("{n}")` writes it.
pub fn usize_to_decimal(n: usize) -> (r: String)
    ensures
        r@ == decimal(n as nat),
    decreases n,
{
    if n < 10 {
        let mut r = String::new();
        push_char(&mut r, ((n as u8) + 48) as char);
        r
    } else {
        let mut r = usize_to_decimal(n / 10);
        push_char(&mut r, (((n % 10) as u8) + 48) as char);
        r
    }
}

} // verus!

verus! {

/// The scalar value and byte length of the character that starts at `pos`.
pub fn decode_scalar_at(bytes: &[u8], pos: usize) -> (r: (u32, usize))
    requires
        pos < bytes@.len(),
        valid_first_scalar(bytes@.subrange(pos as int, bytes@.len() as int)),
    ensures
        r.0 == decode_first_scalar(bytes@.subrange(pos as int, bytes@.len() as int)),
        r.1 == length_of_first_scalar(bytes@.subrange(pos as int, bytes@.len() as int)),
        1 <= r.1 <= 4,
        pos + r.1 <= bytes@.len(),
        is_scalar_value(r.0 as int),
{
    let ghost rest = bytes@.subrange(pos as int, bytes@.len() as int);
    let b1 = bytes[pos];
    assert(rest[0] == b1);
    if b1 <= 0x7f {
        let cp = (b1 & 0x7f) as u32;
        assert(cp <= 0x7f) by (bit_vector)
            requires cp == (b1 & 0x7f) as u32;
        (cp, 1)
    } else if 0xc0 <= b1 && b1 <= 0xdf {
        let b2 = bytes[pos + 1];
        assert(rest[1] == b2);
        let cp = (((b1 & 0x1f) as u32) << 6) | ((b2 & 0x3f) as u32);
        assert(cp <= 0x7ff) by (bit_vector)
            requires cp == (((b1 & 0x1f) as u32) << 6) | ((b2 & 0x3f) as u32);
        (cp, 2)
    } else if 0xe0 <= b1 && b1 <= 0xef {
        let b2 = bytes[pos + 1];
        let b3 = bytes[pos + 2];
        assert(rest[1] == b2 && rest[2] == b3);
        let cp = (((b1 & 0x0f) as u32) << 12) | (((b2 & 0x3f) as u32) << 6) | ((b3 & 0x3f) as u32);
        assert(cp <= 0xffff) by (bit_vector)
            requires cp == (((b1 & 0x0f) as u32) << 12) | (((b2 & 0x3f) as u32) << 6) | ((b3 & 0x3f) as u32);
        (cp, 3)
    } else {
        let b2 = bytes[pos + 1];
        let b3 = bytes[pos + 2];
        let b4 = bytes[pos + 3];
        assert(rest[1] == b2 && rest[2] == b3 && rest[3] == b4);
        let cp = (((b1 & 0x07) as u32) << 18) | (((b2 & 0x3f) as u32) << 12) | (((b3 & 0x3f) as u32) << 6) | ((b4 & 0x3f) as u32);
        (cp, 4)
    }
}

} // verus!

verus! {

/// At a character boundary of valid UTF-8 that is not the end, a whole
/// character starts, and the position after it is again a boundary.
pub proof fn lemma_next_boundary(b: Seq<u8>, j: int)
    requires
        valid_utf8(b),
        boundary_at(b, j),
        j < b.len(),
    ensures
        valid_first_scalar(b.subrange(j, b.len() as int)),
        1 <= length_of_first_scalar(b.subrange(j, b.len() as int)) <= 4,
        j + length_of_first_scalar(b.subrange(j, b.len() as int)) <= b.len(),
        boundary_at(b, j + length_of_first_scalar(b.subrange(j, b.len() as int))),
        b[j] < 0x80 ==> length_of_first_scalar(b.subrange(j, b.len() as int)) == 1,
{
    lemma_boundary(b, j);
    valid_utf8_split(b, j);
    let r = b.subrange(j, b.len() as int);
    assert(r.len() > 0);
    assert(valid_first_scalar(r));
    let l = length_of_first_scalar(r);
    let pop = pop_first_scalar(r);
    assert(valid_utf8(pop));
    if j + l < b.len() {
        assert(pop.len() > 0);
        assert(valid_first_scalar(pop));
        assert(pop[0] == b[j + l]);
    }
}

/// In valid UTF-8 the byte after an ASCII byte starts a character.
pub proof fn lemma_after_ascii(b: Seq<u8>, i: int)
    requires
        valid_utf8(b),
        0 < i <= b.len(),
        b[i - 1] < 0x80,
    ensures
        boundary_at(b, i),
{
    lemma_next_boundary(b, i - 1);
}

} // verus!
