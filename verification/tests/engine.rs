//! Tests of the hashing engine: published reference digests, the
//! incremental / one-shot and batch / scalar equivalences, extended output,
//! and the keyed and derive-key modes.

use treehash::chunk::Output;
use treehash::hasher::Hasher;
use treehash::platform::Platform;
use treehash::{BLOCK_LEN, CHUNK_LEN, CHUNK_END, CHUNK_START, KEY_LEN, OUT_LEN, PARENT, ROOT};

/// The published digest of the empty input.
const EMPTY_DIGEST: [u8; 32] = [
    0xaf, 0x13, 0x49, 0xb9, 0xf5, 0xf9, 0xa1, 0xa6,
    0xa0, 0x40, 0x4d, 0xea, 0x36, 0xdc, 0xc9, 0x49,
    0x9b, 0xcb, 0x25, 0xc9, 0xad, 0xc1, 0x12, 0xb7,
    0xcc, 0x9a, 0x93, 0xca, 0xe4, 0x1f, 0x32, 0x62,
];

/// The published digest of the single byte 0.
const ONE_BYTE_DIGEST: [u8; 32] = [
    0x2d, 0x3a, 0xde, 0xdf, 0xf1, 0x1b, 0x61, 0xf1,
    0x4c, 0x88, 0x6e, 0x35, 0xaf, 0xa0, 0x36, 0x73,
    0x6d, 0xcd, 0x87, 0xa7, 0x4d, 0x27, 0xb5, 0xc1,
    0x51, 0x02, 0x25, 0xd0, 0xf5, 0x92, 0xe2, 0x13,
];

/// The published digest of one exact-chunk-length input of the repeating
/// pattern 0, 1, ..., 250, 0, 1, ...
const ONE_CHUNK_DIGEST: [u8; 32] = [
    0x42, 0x21, 0x47, 0x39, 0xf0, 0x95, 0xa4, 0x06,
    0xf3, 0xfc, 0x83, 0xde, 0xb8, 0x89, 0x74, 0x4a,
    0xc0, 0x0d, 0xf8, 0x31, 0xc1, 0x0d, 0xaa, 0x55,
    0x18, 0x9b, 0x5d, 0x12, 0x1c, 0x85, 0x5a, 0xf7,
];

/// The repeating test pattern: byte i is i mod 251.
fn pattern(len: usize) -> Vec<u8> {
    (0..len).map(|i| (i % 251) as u8).collect()
}

fn hash_all(input: &[u8]) -> Vec<u8> {
    let mut h = Hasher::new();
    h.update(input);
    h.finalize(OUT_LEN)
}

#[test]
fn empty_input_digest() {
    assert_eq!(hash_all(&[]), EMPTY_DIGEST.to_vec());
}

#[test]
fn one_byte_digest() {
    assert_eq!(hash_all(&pattern(1)), ONE_BYTE_DIGEST.to_vec());
}

#[test]
fn one_chunk_digest() {
    assert_eq!(hash_all(&pattern(CHUNK_LEN)), ONE_CHUNK_DIGEST.to_vec());
}

#[test]
fn empty_input_is_one_root_compression() {
    // The empty digest is a single compression of the zero block with
    // length 0, counter 0, and chunk-start + chunk-end flags, read as the
    // root keystream.
    let iv_bytes = iv_key_bytes();
    let p = Platform::detect();
    let out = p.compress(&iv_bytes, &[0u8; 64], 0, 0, CHUNK_START | CHUNK_END | ROOT);
    assert_eq!(&out[..32], &EMPTY_DIGEST[..]);
}

fn iv_key_bytes() -> [u8; 32] {
    let words = [
        treehash::compress::IV_0,
        treehash::compress::IV_1,
        treehash::compress::IV_2,
        treehash::compress::IV_3,
        treehash::compress::IV_4,
        treehash::compress::IV_5,
        treehash::compress::IV_6,
        treehash::compress::IV_7,
    ];
    let mut out = [0u8; 32];
    for (i, w) in words.iter().enumerate() {
        out[4 * i..4 * i + 4].copy_from_slice(&w.to_le_bytes());
    }
    out
}

#[test]
fn incremental_equals_one_shot() {
    let input = pattern(3 * CHUNK_LEN + 17);
    let expected = hash_all(&input);

    // One byte at a time.
    let mut h = Hasher::new();
    for &b in &input {
        h.update(&[b]);
    }
    assert_eq!(h.finalize(OUT_LEN), expected);

    // Irregular slice boundaries, crossing block and chunk edges.
    let mut h = Hasher::new();
    let mut rest: &[u8] = &input;
    for take in [1usize, 63, 64, 65, 1000, 1024, 1025] {
        let take = take.min(rest.len());
        h.update(&rest[..take]);
        rest = &rest[take..];
    }
    h.update(rest);
    assert_eq!(h.finalize(OUT_LEN), expected);
}

#[test]
fn finalize_does_not_consume() {
    let a = pattern(100);
    let b = pattern(3000);
    let mut h = Hasher::new();
    h.update(&a);
    assert_eq!(h.finalize(OUT_LEN), hash_all(&a));
    // Updating may continue after reading a digest.
    h.update(&b);
    let mut whole = a.clone();
    whole.extend_from_slice(&b);
    assert_eq!(h.finalize(OUT_LEN), hash_all(&whole));
}

#[test]
fn extended_output_is_prefix_stable() {
    let input = pattern(1500);
    let mut h = Hasher::new();
    h.update(&input);
    let short = h.finalize(32);
    let long = h.finalize(303);
    assert_eq!(&long[..32], &short[..]);
    let longer = h.finalize(606);
    assert_eq!(&longer[..303], &long[..]);
    // The keystream does not simply repeat.
    assert_ne!(&longer[64..96], &longer[..32]);
}

#[test]
fn keyed_hashes_diverge() {
    let msg = pattern(CHUNK_LEN + 5);
    let key1 = [0x41u8; KEY_LEN];
    let key2 = [0x42u8; KEY_LEN];
    let unkeyed = hash_all(&msg);
    let mut h1 = Hasher::new_keyed(&key1);
    h1.update(&msg);
    let keyed1 = h1.finalize(OUT_LEN);
    let mut h2 = Hasher::new_keyed(&key2);
    h2.update(&msg);
    let keyed2 = h2.finalize(OUT_LEN);
    assert_ne!(unkeyed, keyed1);
    assert_ne!(unkeyed, keyed2);
    assert_ne!(keyed1, keyed2);
}

#[test]
fn derive_key_mode_is_deterministic_and_distinct() {
    let context = b"tests 2024-05-01 context string";
    let material = pattern(99);
    let mut h1 = Hasher::new_derive_key(context);
    h1.update(&material);
    let d1 = h1.finalize(OUT_LEN);
    let mut h2 = Hasher::new_derive_key(context);
    h2.update(&material);
    let d2 = h2.finalize(OUT_LEN);
    assert_eq!(d1, d2);
    assert_ne!(d1, hash_all(&material));
    let mut h3 = Hasher::new_derive_key(b"another context");
    h3.update(&material);
    assert_ne!(h3.finalize(OUT_LEN), d1);
}

#[test]
fn platform_detects_portable() {
    let p = Platform::detect();
    assert!(p == Platform::Portable);
    assert_eq!(p.simd_degree(), 1);
    assert!(!treehash::platform::avx2_detected());
    assert!(!treehash::platform::sse41_detected());
}

fn scalar_blocks_cv(
    p: &Platform,
    input: &[u8],
    key: &[u8; 32],
    counter: u64,
    flags: u32,
    flags_start: u32,
    flags_end: u32,
) -> [u8; 32] {
    // The scalar reference: compress each 64-byte block in sequence,
    // carrying the chaining value.
    let nblocks = input.len() / BLOCK_LEN;
    let mut cv = *key;
    for b in 0..nblocks {
        let mut flags_here = flags;
        if b == 0 {
            flags_here |= flags_start;
        }
        if b + 1 == nblocks {
            flags_here |= flags_end;
        }
        let mut block = [0u8; 64];
        block.copy_from_slice(&input[b * 64..b * 64 + 64]);
        let out = p.compress(&cv, &block, BLOCK_LEN as u8, counter, flags_here);
        cv.copy_from_slice(&out[..32]);
    }
    cv
}

#[test]
fn hash_many_matches_scalar_single_blocks() {
    let p = Platform::detect();
    let key = iv_key_bytes();
    let data = pattern(5 * 64);
    let blocks: Vec<[u8; 64]> = (0..5)
        .map(|i| {
            let mut b = [0u8; 64];
            b.copy_from_slice(&data[i * 64..i * 64 + 64]);
            b
        })
        .collect();
    let refs: Vec<&[u8; 64]> = blocks.iter().collect();
    let deltas = [0u64; 16];
    let mut out = vec![0u8; refs.len() * 32];
    p.hash_many(&refs, &key, 0, &deltas, PARENT, 0, 0, &mut out);
    for i in 0..refs.len() {
        let scalar = scalar_blocks_cv(&p, refs[i], &key, 0, PARENT, 0, 0);
        assert_eq!(&out[32 * i..32 * i + 32], &scalar[..]);
    }
}

#[test]
fn hash_many_matches_scalar_chunks() {
    let p = Platform::detect();
    let key = iv_key_bytes();
    let data = pattern(3 * CHUNK_LEN);
    let chunks: Vec<[u8; 1024]> = (0..3)
        .map(|i| {
            let mut c = [0u8; 1024];
            c.copy_from_slice(&data[i * 1024..i * 1024 + 1024]);
            c
        })
        .collect();
    let refs: Vec<&[u8; 1024]> = chunks.iter().collect();
    let mut deltas = [0u64; 16];
    for (i, d) in deltas.iter_mut().enumerate() {
        *d = i as u64;
    }
    let mut out = vec![0u8; refs.len() * 32];
    p.hash_many(&refs, &key, 0, &deltas, 0, CHUNK_START, CHUNK_END, &mut out);
    for i in 0..refs.len() {
        let scalar =
            scalar_blocks_cv(&p, refs[i], &key, i as u64, 0, CHUNK_START, CHUNK_END);
        assert_eq!(&out[32 * i..32 * i + 32], &scalar[..]);
    }
}

#[test]
fn two_chunk_tree_from_batched_leaves() {
    // Hash two chunks as a batch, merge their chaining values as a parent
    // node with the root flag, and compare with the incremental hasher on
    // the same 2048 bytes.
    let p = Platform::detect();
    let key = iv_key_bytes();
    let data = pattern(2 * CHUNK_LEN);
    let chunks: Vec<[u8; 1024]> = (0..2)
        .map(|i| {
            let mut c = [0u8; 1024];
            c.copy_from_slice(&data[i * 1024..i * 1024 + 1024]);
            c
        })
        .collect();
    let refs: Vec<&[u8; 1024]> = chunks.iter().collect();
    let mut deltas = [0u64; 16];
    for (i, d) in deltas.iter_mut().enumerate() {
        *d = i as u64;
    }
    let mut cvs = vec![0u8; 64];
    p.hash_many(&refs, &key, 0, &deltas, 0, CHUNK_START, CHUNK_END, &mut cvs);
    let mut parent_block = [0u8; 64];
    parent_block.copy_from_slice(&cvs);
    let root = p.compress(&key, &parent_block, BLOCK_LEN as u8, 0, PARENT | ROOT);
    assert_eq!(&root[..32], &hash_all(&data)[..]);
}

#[test]
fn chunk_output_object_matches_hasher() {
    // A short input is a single chunk: finalizing through the hasher and
    // reading the chunk's own deferred output must agree.
    let input = pattern(65);
    let mut h = Hasher::new();
    h.update(&input);
    let via_hasher = h.finalize(OUT_LEN);
    let mut chunk = treehash::chunk::ChunkState::new(
        &[
            treehash::compress::IV_0,
            treehash::compress::IV_1,
            treehash::compress::IV_2,
            treehash::compress::IV_3,
            treehash::compress::IV_4,
            treehash::compress::IV_5,
            treehash::compress::IV_6,
            treehash::compress::IV_7,
        ],
        0,
        0,
    );
    chunk.update(&input);
    let out: Output = chunk.output();
    assert_eq!(out.root_output_bytes(OUT_LEN), via_hasher);
}
