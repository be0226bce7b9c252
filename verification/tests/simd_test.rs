//! The byte scanners: the dispatched functions agree with the scalar ones.

use jwc::simd::{self, scalar};

fn random_bytes(seed: u64, len: usize) -> Vec<u8> {
    let mut s = seed.wrapping_add(0x9E37_79B9_7F4A_7C15);
    (0..len)
        .map(|_| {
            s ^= s << 13;
            s ^= s >> 7;
            s ^= s << 17;
            s as u8
        })
        .collect()
}

#[test]
fn find_string_end_matches_scalar() {
    for seed in 0..8 {
        let buf = random_bytes(seed, 1024);
        for from in [0, 1, 7, 15, 16, 31, 32, 100, 500, 1023] {
            let a = scalar::find_string_end(&buf, from);
            let b = simd::find_string_end(&buf, from);
            assert_eq!(a, b, "seed={seed} from={from}");
        }
    }
}

#[test]
fn skip_ws_matches_scalar() {
    let mut buf = vec![b' '; 200];
    buf.extend_from_slice(b"\t\t\t\nX after");
    for from in [0, 16, 32, 100, 199, 200, 201] {
        let a = scalar::skip_ws(&buf, from);
        let b = simd::skip_ws(&buf, from);
        assert_eq!(a, b, "from={from}");
    }
}

#[test]
fn find_newline_matches_scalar() {
    let mut buf = vec![b'.'; 500];
    buf[100] = b'\n';
    buf[250] = b'\n';
    for from in [0, 16, 32, 100, 101, 200, 250, 260, 499] {
        let a = scalar::find_newline(&buf, from);
        let b = simd::find_newline(&buf, from);
        assert_eq!(a, b, "from={from}");
    }
}

#[test]
fn find_structural_public_and_scalar_agree() {
    let small = b"a,b[c]:\"/";
    assert_eq!(simd::find_structural(small, 0), 1);
    assert_eq!(scalar::find_structural(small, 2), 3);

    let mut long = vec![b'x'; 200];
    long[80] = b':';
    long[150] = b',';
    assert_eq!(simd::find_structural(&long, 0), 80);
    assert_eq!(simd::find_structural(&long, 100), 150);
    assert_eq!(simd::find_structural(&long, 160), long.len());

    for seed in 0..4 {
        let buf = random_bytes(seed, 300);
        for from in [0, 1, 15, 16, 31, 32, 100, 299] {
            let a = scalar::find_structural(&buf, from);
            let b = simd::find_structural(&buf, from);
            assert_eq!(a, b, "seed={seed} from={from}");
        }
    }

    let none = [b'x'; 32];
    assert_eq!(scalar::find_structural(&none, 0), none.len());
}

#[test]
fn scanners_on_known_inputs() {
    assert_eq!(simd::find_string_end(b"ab\"c", 0), 2);
    assert_eq!(simd::find_string_end(b"a\\b", 0), 1);
    assert_eq!(simd::skip_ws(b" \t\r\nx", 0), 4);
    assert_eq!(simd::find_newline(b"ab\ncd", 0), 2);
    assert_eq!(simd::find_newline(b"abcd", 1), 4);
    assert_eq!(simd::find_structural(b"abc", 0), 3);
}
