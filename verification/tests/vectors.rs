//! Further published reference digests: inputs that exercise the parent
//! merge of the tree, a partial second chunk, and the keyed and derive-key
//! modes, all over the repeating pattern 0, 1, ..., 250, 0, 1, ...

use treehash::hasher::Hasher;
use treehash::{CHUNK_LEN, KEY_LEN, OUT_LEN};

/// The published test key.
const TEST_KEY: &[u8; KEY_LEN] = b"whats the Elvish word for friend";

/// The published test context string for key derivation.
const TEST_CONTEXT: &[u8] = b"BLAKE3 2019-12-27 16:29:52 test vectors context";

/// The published digest of two exact chunks (one parent merge at the root).
const TWO_CHUNK_DIGEST: [u8; 32] = [
    0xe7, 0x76, 0xb6, 0x02, 0x8c, 0x7c, 0xd2, 0x2a,
    0x4d, 0x0b, 0xa1, 0x82, 0xa8, 0xbf, 0x62, 0x20,
    0x5d, 0x2e, 0xf5, 0x76, 0x46, 0x7e, 0x83, 0x8e,
    0xd6, 0xf2, 0x52, 0x9b, 0x85, 0xfb, 0xa2, 0x4a,
];

/// The published digest of one chunk plus one byte (a partial second chunk).
const CHUNK_PLUS_ONE_DIGEST: [u8; 32] = [
    0xd0, 0x02, 0x78, 0xae, 0x47, 0xeb, 0x27, 0xb3,
    0x4f, 0xae, 0xcf, 0x67, 0xb4, 0xfe, 0x26, 0x3f,
    0x82, 0xd5, 0x41, 0x29, 0x16, 0xc1, 0xff, 0xd9,
    0x7c, 0x8c, 0xb7, 0xfb, 0x81, 0x4b, 0x84, 0x44,
];

/// The published keyed digest of the empty input under the test key.
const KEYED_EMPTY_DIGEST: [u8; 32] = [
    0x92, 0xb2, 0xb7, 0x56, 0x04, 0xed, 0x3c, 0x76,
    0x1f, 0x9d, 0x6f, 0x62, 0x39, 0x2c, 0x8a, 0x92,
    0x27, 0xad, 0x0e, 0xa3, 0xf0, 0x95, 0x73, 0xe7,
    0x83, 0xf1, 0x49, 0x8a, 0x4e, 0xd6, 0x0d, 0x26,
];

/// The published derived key for the test context and empty key material.
const DERIVE_EMPTY_DIGEST: [u8; 32] = [
    0x2c, 0xc3, 0x97, 0x83, 0xc2, 0x23, 0x15, 0x4f,
    0xea, 0x8d, 0xfb, 0x7c, 0x1b, 0x16, 0x60, 0xf2,
    0xac, 0x2d, 0xcb, 0xd1, 0xc1, 0xde, 0x82, 0x77,
    0xb0, 0xb0, 0xdd, 0x39, 0xb7, 0xe5, 0x0d, 0x7d,
];

fn pattern(len: usize) -> Vec<u8> {
    (0..len).map(|i| (i % 251) as u8).collect()
}

#[test]
fn two_chunk_digest() {
    let mut h = Hasher::new();
    h.update(&pattern(2 * CHUNK_LEN));
    assert_eq!(h.finalize(OUT_LEN), TWO_CHUNK_DIGEST.to_vec());
}

#[test]
fn chunk_plus_one_digest() {
    let mut h = Hasher::new();
    h.update(&pattern(CHUNK_LEN + 1));
    assert_eq!(h.finalize(OUT_LEN), CHUNK_PLUS_ONE_DIGEST.to_vec());
}

#[test]
fn keyed_empty_digest() {
    let h = Hasher::new_keyed(TEST_KEY);
    assert_eq!(h.finalize(OUT_LEN), KEYED_EMPTY_DIGEST.to_vec());
}

#[test]
fn derive_key_empty_digest() {
    let h = Hasher::new_derive_key(TEST_CONTEXT);
    assert_eq!(h.finalize(OUT_LEN), DERIVE_EMPTY_DIGEST.to_vec());
}
