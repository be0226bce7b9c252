//! The byte scans as plain loops.

use vstd::prelude::*;
use crate::simd::{first_match, ByteClass,
    string_end_from, ws_end_from, newline_from, structural_from};

verus! {

pub fn find_string_end(bytes: &[u8], from: usize) -> (r: usize)
    ensures
        r == string_end_from(bytes@, from as int),
{
    let mut i = from;
    while i < bytes.len()
        invariant
            from <= i,
            first_match(bytes@, from as int, ByteClass::StringStop) == first_match(bytes@, i as int, ByteClass::StringStop),
        decreases bytes.len() - i,
    {
        let b = bytes[i];
        if b == 0x22 || b == 0x5c {
            return i;
        }
        i += 1;
    }
    assert(first_match(bytes@, i as int, ByteClass::StringStop) == bytes@.len());
    bytes.len()
}

pub fn skip_ws(bytes: &[u8], from: usize) -> (r: usize)
    ensures
        r == ws_end_from(bytes@, from as int),
{
    let mut i = from;
    while i < bytes.len()
        invariant
            from <= i,
            from < bytes.len() ==> first_match(bytes@, from as int, ByteClass::NotWhitespace) == first_match(bytes@, i as int, ByteClass::NotWhitespace),
            i > from ==> from < bytes.len(),
            from < bytes.len() ==> i <= bytes.len(),
        decreases bytes.len() - i,
    {
        let b = bytes[i];
        if b == 0x20 || b == 0x0a || b == 0x0d || b == 0x09 {
            i += 1;
        } else {
            return i;
        }
    }
    i
}

pub fn find_newline(bytes: &[u8], from: usize) -> (r: usize)
    ensures
        r == newline_from(bytes@, from as int),
{
    let mut i = from;
    while i < bytes.len()
        invariant
            from <= i,
            first_match(bytes@, from as int, ByteClass::Newline) == first_match(bytes@, i as int, ByteClass::Newline),
        decreases bytes.len() - i,
    {
        if bytes[i] == 0x0a {
            return i;
        }
        i += 1;
    }
    bytes.len()
}

pub fn find_structural(bytes: &[u8], from: usize) -> (r: usize)
    ensures
        r == structural_from(bytes@, from as int),
{
    let mut i = from;
    while i < bytes.len()
        invariant
            from <= i,
            first_match(bytes@, from as int, ByteClass::Delimiter) == first_match(bytes@, i as int, ByteClass::Delimiter),
        decreases bytes.len() - i,
    {
        let b = bytes[i];
        if b == 0x7b || b == 0x7d || b == 0x5b || b == 0x5d || b == 0x2c || b == 0x3a || b == 0x22 || b == 0x2f {
            return i;
        }
        i += 1;
    }
    bytes.len()
}

} // verus!
