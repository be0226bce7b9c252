//! Byte scans used by both parsers. Each answers the first position at or
//! after `from` whose byte is of a given class. The vectorised lanes of the
//! scans are a speed-up of exactly these answers; here every scan is the
//! plain loop of [`scalar`].

use vstd::prelude::*;

pub mod scalar;

verus! {

/// The kinds of byte the scans look for.
pub enum ByteClass {
    StringStop,
    NotWhitespace,
    Newline,
    Delimiter,
}

pub open spec fn in_class(c: u8, k: ByteClass) -> bool {
    match k {
        ByteClass::StringStop => is_string_stop(c),
        ByteClass::NotWhitespace => !is_ws_byte(c),
        ByteClass::Newline => is_newline(c),
        ByteClass::Delimiter => is_structural(c),
    }
}

/// The first position at or after `from` whose byte is of class `k`, or
/// `b.len()`.
pub open spec fn first_match(b: Seq<u8>, from: int, k: ByteClass) -> int
    decreases b.len() - from,
{
    if from >= b.len() {
        b.len() as int
    } else if in_class(b[from], k) {
        from
    } else {
        first_match(b, from + 1, k)
    }
}

/// `"` or `\`: where a string's plain run ends.
pub open spec fn is_string_stop(c: u8) -> bool {
    c == 0x22 || c == 0x5c
}

/// The four whitespace bytes of JSON: space, tab, line feed, carriage return.
pub open spec fn is_ws_byte(c: u8) -> bool {
    c == 0x20 || c == 0x09 || c == 0x0a || c == 0x0d
}

pub open spec fn is_newline(c: u8) -> bool {
    c == 0x0a
}

/// `{ } [ ] , : " /`.
pub open spec fn is_structural(c: u8) -> bool {
    c == 0x7b || c == 0x7d || c == 0x5b || c == 0x5d || c == 0x2c || c == 0x3a || c == 0x22
        || c == 0x2f
}

/// First `"` or `\` at or after `from`, or `b.len()`.
pub open spec fn string_end_from(b: Seq<u8>, from: int) -> int {
    first_match(b, from, ByteClass::StringStop)
}

/// First line feed at or after `from`, or `b.len()`.
pub open spec fn newline_from(b: Seq<u8>, from: int) -> int {
    first_match(b, from, ByteClass::Newline)
}

/// First structural byte at or after `from`, or `b.len()`.
pub open spec fn structural_from(b: Seq<u8>, from: int) -> int {
    first_match(b, from, ByteClass::Delimiter)
}

/// First non-whitespace position at or after `from`; `from` itself when it is
/// already at or past the end.
pub open spec fn ws_end_from(b: Seq<u8>, from: int) -> int {
    if from >= b.len() {
        from
    } else {
        first_match(b, from, ByteClass::NotWhitespace)
    }
}

/// What `first_match` means: the least position at or after `from` whose
/// byte satisfies `p`, the end when there is none.
pub proof fn lemma_first_match(b: Seq<u8>, from: int, k: ByteClass)
    requires
        0 <= from,
    ensures
        from <= b.len() ==> from <= first_match(b, from, k) <= b.len(),
        from > b.len() ==> first_match(b, from, k) == b.len(),
        first_match(b, from, k) < b.len() ==> in_class(b[first_match(b, from, k)], k),
        forall|i: int| from <= i < first_match(b, from, k) ==> !in_class(#[trigger] b[i], k),
    decreases b.len() - from,
{
    if from < b.len() && !in_class(b[from], k) {
        lemma_first_match(b, from + 1, k);
    }
}

/// First `"` or `\` at or after `from`, or `bytes.len()`.
pub fn find_string_end(bytes: &[u8], from: usize) -> (r: usize)
    ensures
        r == string_end_from(bytes@, from as int),
{
    scalar::find_string_end(bytes, from)
}

/// First byte at or after `from` that is not JSON whitespace; `from` when
/// that is at or past the end.
pub fn skip_ws(bytes: &[u8], from: usize) -> (r: usize)
    ensures
        r == ws_end_from(bytes@, from as int),
{
    scalar::skip_ws(bytes, from)
}

/// First line feed at or after `from`, or `bytes.len()`.
pub fn find_newline(bytes: &[u8], from: usize) -> (r: usize)
    ensures
        r == newline_from(bytes@, from as int),
{
    scalar::find_newline(bytes, from)
}

/// First structural byte (`{ } [ ] , : " /`) at or after `from`, or
/// `bytes.len()`.
pub fn find_structural(bytes: &[u8], from: usize) -> (r: usize)
    ensures
        r == structural_from(bytes@, from as int),
{
    scalar::find_structural(bytes, from)
}

} // verus!
