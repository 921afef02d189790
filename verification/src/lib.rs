//! An incremental, parallelizable tree hash engine.
//!
//! The input stream is split into fixed-size chunks; each chunk is compressed
//! block by block into a 32-byte chaining value, and chaining values combine
//! pairwise up a binary tree into a root, from which output of any requested
//! length is read.  Every compression call is pinned to a mathematical model
//! (`compress::compress_spec`), and the incremental hasher is pinned to a
//! byte-at-a-time state machine, so that feeding the same bytes in any split
//! provably yields the same digest.

use vstd::prelude::*;

pub mod compress;
pub mod chunk;
pub mod hasher;
pub mod platform;

verus! {

/// Digest length in bytes of the default (non-extended) output.
pub const OUT_LEN: usize = 32;

/// Key length in bytes for the keyed mode.
pub const KEY_LEN: usize = 32;

/// Length in bytes of one compression-function message block.
pub const BLOCK_LEN: usize = 64;

/// Length in bytes of one chunk, the leaf unit of the tree.
pub const CHUNK_LEN: usize = 1024;

/// Domain-separation flag for the first block of a chunk.
pub const CHUNK_START: u32 = 1;

/// Domain-separation flag for the last block of a chunk.
pub const CHUNK_END: u32 = 2;

/// Domain-separation flag for a compression whose message is two child
/// chaining values.
pub const PARENT: u32 = 4;

/// Domain-separation flag for the single root compression of a computation.
pub const ROOT: u32 = 8;

/// Domain-separation flag asserted on every compression of a keyed hash.
pub const KEYED_HASH: u32 = 16;

/// Domain-separation flag for hashing the context string of key derivation.
pub const DERIVE_KEY_CONTEXT: u32 = 32;

/// Domain-separation flag for hashing the key material of key derivation.
pub const DERIVE_KEY_MATERIAL: u32 = 64;

} // verus!
