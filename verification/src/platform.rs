//! Runtime dispatch between compression implementations, and the batched
//! multi-input compression `hash_many`.
//!
//! The dispatch type is a closed sum over the implementations this crate
//! carries.  Lane-parallel implementations for processor extensions require
//! intrinsics outside the verified subset, so this build carries the portable
//! path only; the `Platform` type is the single gate through which any
//! further implementation would be dispatched, and every variant's `compress`
//! is pinned to the same model `compress_spec`, which is what makes added
//! implementations bit-compatible by contract.

use vstd::prelude::*;

use crate::chunk::{
    chunk_add, chunk_flush, chunk_new_v, chunk_output, chunk_push_byte, chunk_start_flag, ChunkV,
    lemma_chunk_add_concat, lemma_chunk_add_fill, output_cv, pad64,
};
use crate::compress::{
    byte_from_word, byte_of, bytes_of_words, compress, compress_spec, first8, first_8_words,
    push_cv_bytes, words_16_from, words_8_from, words_of,
};
use crate::{BLOCK_LEN, CHUNK_END, CHUNK_START, KEY_LEN};
use vstd::array::array_as_slice;

verus! {

/// Largest number of lanes any dispatchable implementation processes per
/// batched call.  The portable path is scalar.
pub const MAX_SIMD_DEGREE: usize = 1;

/// The closed set of dispatchable compression implementations.  A variant
/// for an accelerated path may only be constructed by `detect`, never
/// exposed as a free-standing entry point.
#[derive(Clone, Copy, Debug, PartialEq, Eq, Structural)]
pub enum Platform {
    Portable,
}

/// The chaining value produced by compressing `input` block by block with
/// the scalar compression function, carrying the running chaining value,
/// with `flags_start` on the first block and `flags_end` on the last.  This
/// is the reference meaning of one lane of a `hash_many` batch.
pub open spec fn hash_blocks_cv(
    input: Seq<u8>,
    cv: Seq<u32>,
    counter: u64,
    flags: u32,
    flags_start: u32,
    flags_end: u32,
) -> Seq<u32>
    recommends
        input.len() % 64 == 0,
        input.len() >= 64,
    decreases input.len(),
{
    if input.len() <= 64 {
        first8(
            compress_spec(
                cv,
                words_of(input.take(64)),
                counter,
                64,
                flags | flags_start | flags_end,
            ),
        )
    } else {
        let cv2 = first8(
            compress_spec(cv, words_of(input.take(64)), counter, 64, flags | flags_start),
        );
        hash_blocks_cv(input.skip(64), cv2, counter, flags, 0, flags_end)
    }
}

proof fn lemma_or_zero(x: u32)
    ensures
        x | 0u32 == x,
{
    assert(x | 0u32 == x) by (bit_vector);
}

proof fn lemma_lane_matches_chunk_from(c: ChunkV, bytes: Seq<u8>)
    requires
        c.block.len() == 0,
        bytes.len() % 64 == 0,
        64 <= bytes.len(),
        c.compressed * 64 + bytes.len() <= 1024,
    ensures
        output_cv(chunk_output(chunk_add(c, bytes))) == hash_blocks_cv(
            bytes,
            c.cv,
            c.counter,
            c.flags,
            chunk_start_flag(c),
            CHUNK_END,
        ),
    decreases bytes.len(),
{
    let first64 = bytes.take(64);
    lemma_chunk_add_fill(c, first64);
    let c1 = chunk_add(c, first64);
    assert(pad64(first64) =~= first64);
    if bytes.len() == 64 {
        assert(first64 =~= bytes);
        assert(chunk_output(c1) =~= chunk_output(chunk_add(c, bytes)));
    } else {
        let rest = bytes.skip(64);
        assert(first64 + rest =~= bytes);
        lemma_chunk_add_concat(c, first64, rest);
        let c2 = chunk_flush(c1);
        assert(c2.block.len() == 0 && c2.compressed == c.compressed + 1);
        assert(chunk_push_byte(c1, rest[0]) == chunk_push_byte(c2, rest[0]));
        assert(chunk_add(c1, rest) == chunk_add(c2, rest));
        lemma_lane_matches_chunk_from(c2, rest);
        assert(chunk_start_flag(c2) == 0u32);
        assert(c2.cv == first8(
            compress_spec(c.cv, words_of(first64), c.counter, 64, c.flags | chunk_start_flag(c)),
        ));
    }
}

/// Law: one lane of a batch over a whole chunk agrees with the chunk layer
/// of the incremental hasher — compressing a chunk-aligned input with the
/// chunk-start and chunk-end flags through the scalar block recursion of
/// `hash_many` yields exactly the chaining value that chunk contributes to
/// the tree.  A caller may therefore batch leaf chunks through `hash_many`
/// and feed the resulting chaining values into the same tree merge.
pub proof fn lemma_hash_many_lane_is_chunk_cv(key: Seq<u32>, counter: u64, flags: u32, bytes: Seq<
    u8>)
    requires
        bytes.len() % 64 == 0,
        64 <= bytes.len() <= 1024,
    ensures
        hash_blocks_cv(bytes, key, counter, flags, CHUNK_START, CHUNK_END) == output_cv(
            chunk_output(chunk_add(chunk_new_v(key, counter, flags), bytes)),
        ),
{
    lemma_lane_matches_chunk_from(chunk_new_v(key, counter, flags), bytes);
}

/// Whether a lane-parallel implementation using the avx2 extension is
/// available to dispatch to.  This build compiles in no such implementation
/// — only the portable path — so availability is always reported false;
/// `detect` therefore never constructs an accelerated variant.
pub fn avx2_detected() -> (r: bool)
    ensures
        r == false,
{
    false
}

/// Whether a lane-parallel implementation using the sse4.1 extension is
/// available to dispatch to.  As with `avx2_detected`, this build carries
/// none, so availability is always reported false.
pub fn sse41_detected() -> (r: bool)
    ensures
        r == false,
{
    false
}

impl Platform {
    /// Returns the best implementation this build carries.  Accelerated
    /// paths are probed in descending order of preference (`avx2_detected`,
    /// then `sse41_detected`); with none compiled in, both probes report
    /// unavailable and detection always selects the portable path.
    /// Detection is stable: repeated calls return the same variant.
    pub fn detect() -> (p: Platform)
        ensures
            p == Platform::Portable,
    {
        Platform::Portable
    }

    /// The batch width of the selected implementation: how many independent
    /// inputs one `hash_many` call processes in lock-step.
    pub fn simd_degree(&self) -> (d: usize)
        ensures
            1 <= d <= MAX_SIMD_DEGREE,
            d == 1,
    {
        let degree: usize = match self {
            Platform::Portable => 1,
        };
        degree
    }

    /// Dispatches one compression call.  Every variant returns the bytes of
    /// `compress_spec` on the same inputs, so all implementations behind
    /// this dispatch point are bit-identical.
    pub fn compress(
        &self,
        cv: &[u8; 32],
        block: &[u8; BLOCK_LEN],
        block_len: u8,
        offset: u64,
        flags: u32,
    ) -> (out: [u8; 64])
        ensures
            out@ == bytes_of_words(
                compress_spec(words_of(cv@), words_of(block@), offset, block_len as u32, flags),
            ),
    {
        match self {
            Platform::Portable => {
                let cv_words = words_8_from(array_as_slice(cv));
                let block_words = words_16_from(array_as_slice(block), 0);
                proof {
                    assert(block@.subrange(0, 64) =~= block@);
                }
                let words = compress(&cv_words, &block_words, offset, block_len as u32, flags);
                let mut out = [0u8; 64];
                let mut i: usize = 0;
                while i < 64
                    invariant
                        i <= 64,
                        words@ == compress_spec(
                            words_of(cv@),
                            words_of(block@),
                            offset,
                            block_len as u32,
                            flags,
                        ),
                        forall|m: int| 0 <= m < i ==> out@[m] == byte_of(words@[m / 4], m % 4),
                    decreases 64 - i,
                {
                    out[i] = byte_from_word(words[i / 4], i % 4);
                    i = i + 1;
                }
                proof {
                    assert(out@ =~= bytes_of_words(words@));
                }
                out
            },
        }
    }

    /// One lane of a batch: compresses the blocks of `input` sequentially,
    /// carrying the chaining value, proved equal to the scalar reference
    /// `hash_blocks_cv`.
    fn hash_one<const N: usize>(
        input: &[u8; N],
        key_words: &[u32; 8],
        counter: u64,
        flags: u32,
        flags_start: u32,
        flags_end: u32,
    ) -> (cv: [u32; 8])
        requires
            N % 64 == 0,
            N >= 64,
        ensures
            cv@ == hash_blocks_cv(input@, key_words@, counter, flags, flags_start, flags_end),
    {
        let mut cv: [u32; 8] = *key_words;
        let mut block_flags = flags | flags_start;
        let mut off: usize = 0;
        proof {
            assert(input@.skip(0) =~= input@);
        }
        while off < N
            invariant
                N % 64 == 0,
                N >= 64,
                off % 64 == 0,
                off <= N,
                block_flags == (if off == 0 {
                    flags | flags_start
                } else {
                    flags
                }),
                off < N ==> hash_blocks_cv(
                    input@,
                    key_words@,
                    counter,
                    flags,
                    flags_start,
                    flags_end,
                ) == hash_blocks_cv(
                    input@.skip(off as int),
                    cv@,
                    counter,
                    flags,
                    (if off == 0 {
                        flags_start
                    } else {
                        0u32
                    }),
                    flags_end,
                ),
                off == N ==> cv@ == hash_blocks_cv(
                    input@,
                    key_words@,
                    counter,
                    flags,
                    flags_start,
                    flags_end,
                ),
            decreases N - off,
        {
            proof {
                assert(off + 64 <= N) by (nonlinear_arith)
                    requires
                        off % 64 == 0,
                        N % 64 == 0,
                        off < N,
                ;
                lemma_or_zero(flags);
            }
            let mut bf = block_flags;
            if off + 64 == N {
                bf = bf | flags_end;
            }
            let words = words_16_from(array_as_slice(input), off);
            let out16 = compress(&cv, &words, counter, 64, bf);
            let ghost rest = input@.skip(off as int);
            let ghost fs_cur: u32 = if off == 0 {
                flags_start
            } else {
                0u32
            };
            let ghost cv_old = cv@;
            cv = first_8_words(&out16);
            proof {
                assert(rest.take(64) =~= input@.subrange(off as int, off as int + 64));
                assert(flags | fs_cur == block_flags);
                if off + 64 == N {
                    assert(rest.len() == 64);
                    assert(cv@ == hash_blocks_cv(rest, cv_old, counter, flags, fs_cur, flags_end));
                } else {
                    assert(rest.len() > 64);
                    assert(rest.skip(64) =~= input@.skip(off as int + 64));
                    assert(hash_blocks_cv(rest, cv_old, counter, flags, fs_cur, flags_end)
                        == hash_blocks_cv(rest.skip(64), cv@, counter, flags, 0, flags_end));
                }
            }
            block_flags = flags;
            off = off + 64;
        }
        cv
    }

    /// Dispatches a batched multi-input compression: one 32-byte chaining
    /// value per input, written to `out` in input order.  Input `i` is
    /// tagged with the counter `offset + offset_deltas[i]`; the batch result
    /// for every input equals the scalar per-input sequential compression
    /// `hash_blocks_cv`, whatever the batch width of the implementation.
    pub fn hash_many<const N: usize>(
        &self,
        inputs: &[&[u8; N]],
        key: &[u8; KEY_LEN],
        offset: u64,
        offset_deltas: &[u64; 16],
        flags: u32,
        flags_start: u32,
        flags_end: u32,
        out: &mut Vec<u8>,
    )
        requires
            N % 64 == 0,
            N >= 64,
            inputs@.len() <= 16,
            forall|i: int| 0 <= i < inputs@.len() ==> offset + offset_deltas@[i] <= u64::MAX,
            old(out)@.len() == inputs@.len() * 32,
        ensures
            final(out)@.len() == old(out)@.len(),
            forall|i: int|
                0 <= i < inputs@.len() ==> final(out)@.subrange(32 * i, 32 * i + 32)
                    == bytes_of_words(
                    hash_blocks_cv(
                        inputs@[i]@,
                        words_of(key@),
                        (offset + offset_deltas@[i]) as u64,
                        flags,
                        flags_start,
                        flags_end,
                    ),
                ),
    {
        match self {
            Platform::Portable => {
                let key_words = words_8_from(array_as_slice(key));
                let n = inputs.len();
                let mut result: Vec<u8> = Vec::new();
                let mut i: usize = 0;
                while i < n
                    invariant
                        n == inputs@.len(),
                        i <= n,
                        n <= 16,
                        N % 64 == 0,
                        N >= 64,
                        key_words@ == words_of(key@),
                        forall|q: int| 0 <= q < n ==> offset + offset_deltas@[q] <= u64::MAX,
                        result@.len() == 32 * i,
                        forall|q: int|
                            0 <= q < i ==> #[trigger] result@.subrange(32 * q, 32 * q + 32)
                                == bytes_of_words(
                                hash_blocks_cv(
                                    inputs@[q]@,
                                    words_of(key@),
                                    (offset + offset_deltas@[q]) as u64,
                                    flags,
                                    flags_start,
                                    flags_end,
                                ),
                            ),
                    decreases n - i,
                {
                    let d = offset_deltas[i];
                    let cv = Self::hash_one(inputs[i], &key_words, offset + d, flags, flags_start,
                        flags_end);
                    let ghost prev = result@;
                    push_cv_bytes(&mut result, &cv);
                    proof {
                        assert(result@.subrange(32 * i as int, 32 * i as int + 32)
                            =~= bytes_of_words(cv@));
                        assert forall|q: int| 0 <= q < i implies #[trigger] result@.subrange(
                            32 * q,
                            32 * q + 32,
                        ) == prev.subrange(32 * q, 32 * q + 32) by {
                            assert(result@.subrange(32 * q, 32 * q + 32) =~= prev.subrange(
                                32 * q,
                                32 * q + 32,
                            ));
                        }
                    }
                    i = i + 1;
                }
                *out = result;
            },
        }
    }
}

} // verus!
