//! The chunk layer: how a stream of message bytes becomes the chaining value
//! of one leaf of the tree, and the `Output` object that defers the final
//! compression of a position so the root flag and the extended output counter
//! can be applied there.
//!
//! The model is a byte-at-a-time state machine (`chunk_push_byte`, folded by
//! `chunk_add`): a full 64-byte buffer is compressed into the chaining value
//! only when a further byte arrives, so the last block of a chunk always
//! remains in the buffer for `chunk_output` to mark with the chunk-end flag.

use vstd::prelude::*;

use crate::compress::{
    byte_from_word, byte_of, bytes_of_words, compress, compress_spec, first8, first_8_words,
    words_16_from, words_of,
};
use vstd::array::array_as_slice;
use crate::{BLOCK_LEN, CHUNK_START, CHUNK_END, ROOT};

verus! {

/// Mathematical state of a chunk in progress: the running chaining value,
/// the chunk's index, the buffered bytes of the current block, how many
/// blocks were already compressed, and the computation's flags.
#[verifier::ext_equal]
pub ghost struct ChunkV {
    pub cv: Seq<u32>,
    pub counter: u64,
    pub block: Seq<u8>,
    pub compressed: nat,
    pub flags: u32,
}

/// Well-formedness of a chunk model: the buffer holds at most one block and
/// the chunk holds at most `CHUNK_LEN` bytes in all.
pub open spec fn chunk_wf(c: ChunkV) -> bool {
    &&& c.cv.len() == 8
    &&& c.block.len() <= 64
    &&& c.compressed * 64 + c.block.len() <= 1024
}

/// Number of message bytes this chunk has consumed.
pub open spec fn chunk_len_v(c: ChunkV) -> int {
    c.compressed * 64 + c.block.len() as int
}

/// A fresh chunk: chaining value seeded with the key words, empty buffer.
pub open spec fn chunk_new_v(key: Seq<u32>, counter: u64, flags: u32) -> ChunkV {
    ChunkV { cv: key, counter, block: Seq::empty(), compressed: 0, flags }
}

/// Zero-pads a partial block to the full 64 bytes the compression takes.
pub open spec fn pad64(b: Seq<u8>) -> Seq<u8> {
    b + Seq::new((64 - b.len()) as nat, |i: int| 0u8)
}

/// The chunk-start flag is asserted only on a chunk's first block.
pub open spec fn chunk_start_flag(c: ChunkV) -> u32 {
    if c.compressed == 0 {
        CHUNK_START
    } else {
        0
    }
}

/// Compresses the (full) buffered block into the chaining value.
pub open spec fn chunk_compress_step(c: ChunkV) -> ChunkV
    recommends
        c.block.len() == 64,
{
    ChunkV {
        cv: first8(
            compress_spec(
                c.cv,
                words_of(pad64(c.block)),
                c.counter,
                64,
                c.flags | chunk_start_flag(c),
            ),
        ),
        counter: c.counter,
        block: Seq::empty(),
        compressed: c.compressed + 1,
        flags: c.flags,
    }
}

/// Compresses the buffered block if and only if it is full.
pub open spec fn chunk_flush(c: ChunkV) -> ChunkV {
    if c.block.len() == 64 {
        chunk_compress_step(c)
    } else {
        c
    }
}

/// One step of the chunk state machine: flush a full buffer, then buffer the
/// byte.
pub open spec fn chunk_push_byte(c: ChunkV, b: u8) -> ChunkV {
    let c1 = chunk_flush(c);
    ChunkV { block: c1.block.push(b), ..c1 }
}

/// The chunk state machine folded over a byte sequence.  This is the
/// reference meaning of feeding bytes to a chunk, whatever slices the
/// executable code processes them in.
pub open spec fn chunk_add(c: ChunkV, bytes: Seq<u8>) -> ChunkV
    decreases bytes.len(),
{
    if bytes.len() == 0 {
        c
    } else {
        chunk_add(chunk_push_byte(c, bytes[0]), bytes.drop_first())
    }
}

/// Mathematical state of a deferred compression: all the inputs of one
/// compression call, kept so that the root flag and an output-block counter
/// can still be chosen by the caller.
#[verifier::ext_equal]
pub ghost struct OutputV {
    pub input_cv: Seq<u32>,
    pub block_words: Seq<u32>,
    pub counter: u64,
    pub block_len: u32,
    pub flags: u32,
}

/// The chaining value this position contributes to the tree.
pub open spec fn output_cv(o: OutputV) -> Seq<u32> {
    first8(compress_spec(o.input_cv, o.block_words, o.counter, o.block_len, o.flags))
}

/// The deferred final compression of a chunk: the buffered (possibly short,
/// possibly empty) last block, marked with the chunk-end flag.
pub open spec fn chunk_output(c: ChunkV) -> OutputV {
    OutputV {
        input_cv: c.cv,
        block_words: words_of(pad64(c.block)),
        counter: c.counter,
        block_len: c.block.len() as u32,
        flags: c.flags | chunk_start_flag(c) | CHUNK_END,
    }
}

/// Output block `t` of the root keystream: the root compression re-run with
/// the output-block counter `t`, serialized little-endian.
pub open spec fn root_block(o: OutputV, t: u64) -> Seq<u8> {
    bytes_of_words(compress_spec(o.input_cv, o.block_words, t, o.block_len, o.flags | ROOT))
}

/// The first `n` bytes of the root keystream.  Byte `j` lives in output
/// block `j / 64`; requesting more bytes never changes earlier ones.
pub open spec fn root_bytes(o: OutputV, n: nat) -> Seq<u8> {
    Seq::new(n, |j: int| root_block(o, (j / 64) as u64)[j % 64])
}

/// Folding bytes into a chunk never compresses more than the bytes allow:
/// the consumed length grows by exactly one per byte, the buffer stays at
/// most one block, and the chunk's position and flags do not move.
pub proof fn lemma_chunk_add_props(c: ChunkV, bytes: Seq<u8>)
    requires
        c.block.len() <= 64,
    ensures
        chunk_add(c, bytes).block.len() <= 64,
        chunk_len_v(chunk_add(c, bytes)) == chunk_len_v(c) + bytes.len(),
        chunk_add(c, bytes).counter == c.counter,
        chunk_add(c, bytes).flags == c.flags,
    decreases bytes.len(),
{
    if bytes.len() > 0 {
        let c1 = chunk_push_byte(c, bytes[0]);
        assert(chunk_len_v(c1) == chunk_len_v(c) + 1);
        lemma_chunk_add_props(c1, bytes.drop_first());
    }
}

/// Splitting a byte sequence anywhere does not change where a chunk ends up:
/// the fold over a concatenation is the composition of the folds.
pub proof fn lemma_chunk_add_concat(c: ChunkV, a: Seq<u8>, b: Seq<u8>)
    ensures
        chunk_add(c, a + b) == chunk_add(chunk_add(c, a), b),
    decreases a.len(),
{
    if a.len() == 0 {
        assert(a + b =~= b);
    } else {
        assert((a + b)[0] == a[0]);
        assert((a + b).drop_first() =~= a.drop_first() + b);
        lemma_chunk_add_concat(chunk_push_byte(c, a[0]), a.drop_first(), b);
    }
}

/// Bytes that fit in the buffer after at most one flush are simply appended:
/// the fold equals one flush followed by a bulk append.
pub proof fn lemma_chunk_add_fill(c: ChunkV, bytes: Seq<u8>)
    requires
        bytes.len() >= 1,
        chunk_flush(c).block.len() + bytes.len() <= 64,
    ensures
        chunk_add(c, bytes) == (ChunkV { block: chunk_flush(c).block + bytes, ..chunk_flush(c) }),
    decreases bytes.len(),
{
    let c1 = chunk_push_byte(c, bytes[0]);
    if bytes.len() == 1 {
        assert(chunk_flush(c).block + bytes =~= chunk_flush(c).block.push(bytes[0]));
        assert(bytes.drop_first().len() == 0);
        assert(chunk_add(c1, bytes.drop_first()) == c1);
        assert(chunk_add(c, bytes) == c1);
        assert(chunk_add(c, bytes) =~= ChunkV {
            block: chunk_flush(c).block + bytes,
            ..chunk_flush(c)
        });
    } else {
        assert(c1.block.len() < 64);
        assert(chunk_flush(c1) == c1);
        lemma_chunk_add_fill(c1, bytes.drop_first());
        assert(chunk_flush(c).block + bytes =~= c1.block + bytes.drop_first());
        assert(chunk_add(c, bytes) =~= ChunkV {
            block: chunk_flush(c).block + bytes,
            ..chunk_flush(c)
        });
    }
}

/// Executable state of the chunk currently being filled.
pub struct ChunkState {
    pub chaining_value: [u32; 8],
    pub chunk_counter: u64,
    pub block: [u8; 64],
    pub block_len: u8,
    pub blocks_compressed: u8,
    pub flags: u32,
}

impl View for ChunkState {
    type V = ChunkV;

    open spec fn view(&self) -> ChunkV {
        ChunkV {
            cv: self.chaining_value@,
            counter: self.chunk_counter,
            block: self.block@.take(self.block_len as int),
            compressed: self.blocks_compressed as nat,
            flags: self.flags,
        }
    }
}

impl ChunkState {
    /// The representation invariant: the model is well formed and the unused
    /// tail of the block buffer is zero, so padding never alters output.
    pub open spec fn wf(&self) -> bool {
        &&& self.block_len <= 64
        &&& (self.blocks_compressed as int) * 64 + (self.block_len as int) <= 1024
        &&& forall|i: int| self.block_len as int <= i < 64 ==> self.block@[i] == 0
    }

    pub fn new(key_words: &[u32; 8], chunk_counter: u64, flags: u32) -> (r: ChunkState)
        ensures
            r.wf(),
            r@ == chunk_new_v(key_words@, chunk_counter, flags),
    {
        let r = ChunkState {
            chaining_value: *key_words,
            chunk_counter,
            block: [0u8; 64],
            block_len: 0,
            blocks_compressed: 0,
            flags,
        };
        proof {
            assert(r@ =~= chunk_new_v(key_words@, chunk_counter, flags));
        }
        r
    }

    /// Number of message bytes consumed so far by this chunk.
    pub fn len(&self) -> (n: usize)
        requires
            self.wf(),
        ensures
            n as int == chunk_len_v(self@),
    {
        self.blocks_compressed as usize * 64 + self.block_len as usize
    }

    /// Copies `take` bytes of `input` starting at `i` into the block buffer.
    fn fill_block(&mut self, input: &[u8], i: usize, take: usize)
        requires
            old(self).wf(),
            i + take <= input@.len(),
            old(self).block_len as int + take as int <= 64,
            (old(self).blocks_compressed as int) * 64 + (old(self).block_len as int) + take as int
                <= 1024,
        ensures
            final(self).wf(),
            final(self)@ == (ChunkV {
                block: old(self)@.block + input@.subrange(i as int, i as int + take as int),
                ..old(self)@
            }),
    {
        let base = self.block_len as usize;
        let ilen: usize = input.len();
        let mut j: usize = 0;
        while j < take
            invariant
                j <= take,
                base == old(self).block_len as int,
                base + take <= 64,
                ilen == input@.len(),
                i + take <= ilen,
                self.block_len == old(self).block_len,
                self.chaining_value == old(self).chaining_value,
                self.chunk_counter == old(self).chunk_counter,
                self.blocks_compressed == old(self).blocks_compressed,
                self.flags == old(self).flags,
                forall|k: int| 0 <= k < base ==> self.block@[k] == old(self).block@[k],
                forall|k: int| 0 <= k < j ==> #[trigger] self.block@[base + k] == input@[i + k],
                forall|k: int| base + j <= k < 64 ==> self.block@[k] == 0,
            decreases take - j,
        {
            self.block[base + j] = input[i + j];
            j = j + 1;
        }
        self.block_len = self.block_len + take as u8;
        proof {
            let merged = old(self)@.block + input@.subrange(i as int, i as int + take as int);
            assert forall|k: int| 0 <= k < base + take implies self.block@[k] == merged[k] by {
                if base <= k {
                    assert(self.block@[base + (k - base)] == input@[i + (k - base)]);
                }
            }
            assert(self@.block =~= merged);
            assert(self@ =~= (ChunkV {
                block: old(self)@.block + input@.subrange(i as int, i as int + take as int),
                ..old(self)@
            }));
        }
    }

    /// Compresses the full buffered block into the chaining value and clears
    /// the buffer.
    fn compress_block(&mut self)
        requires
            old(self).wf(),
            old(self).block_len == 64,
        ensures
            final(self).wf(),
            final(self)@ == chunk_flush(old(self)@),
    {
        let block_words = words_16_from(array_as_slice(&self.block), 0);
        proof {
            assert(pad64(old(self)@.block) =~= self.block@.subrange(0, 64));
        }
        let sf = if self.blocks_compressed == 0 {
            CHUNK_START
        } else {
            0
        };
        let out16 = compress(
            &self.chaining_value,
            &block_words,
            self.chunk_counter,
            BLOCK_LEN as u32,
            self.flags | sf,
        );
        self.chaining_value = first_8_words(&out16);
        self.blocks_compressed = self.blocks_compressed + 1;
        self.block = [0u8; 64];
        self.block_len = 0;
        proof {
            assert(self@ =~= chunk_compress_step(old(self)@));
        }
    }

    /// Feeds `input` to the chunk; the result is the byte-at-a-time fold
    /// `chunk_add`, whatever the slice boundaries.
    pub fn update(&mut self, input: &[u8])
        requires
            old(self).wf(),
            chunk_len_v(old(self)@) + input@.len() <= 1024,
        ensures
            final(self).wf(),
            final(self)@ == chunk_add(old(self)@, input@),
    {
        let ilen = input.len();
        let mut i: usize = 0;
        while i < ilen
            invariant
                old(self).wf(),
                self.wf(),
                ilen == input@.len(),
                i <= ilen,
                chunk_len_v(old(self)@) + input@.len() <= 1024,
                self@ == chunk_add(old(self)@, input@.take(i as int)),
            decreases ilen - i,
        {
            proof {
                lemma_chunk_add_props(old(self)@, input@.take(i as int));
            }
            if self.block_len as usize == BLOCK_LEN {
                self.compress_block();
            }
            let want = BLOCK_LEN - self.block_len as usize;
            let rem = ilen - i;
            let take = if want < rem {
                want
            } else {
                rem
            };
            let ghost pre = self@;
            proof {
                assert(pre == chunk_flush(chunk_add(old(self)@, input@.take(i as int))));
            }
            self.fill_block(input, i, take);
            proof {
                let piece = input@.subrange(i as int, i as int + take as int);
                lemma_chunk_add_fill(chunk_add(old(self)@, input@.take(i as int)), piece);
                lemma_chunk_add_concat(old(self)@, input@.take(i as int), piece);
                assert(input@.take(i as int) + piece =~= input@.take(i as int + take as int));
            }
            i = i + take;
        }
        proof {
            assert(input@.take(ilen as int) =~= input@);
        }
    }

    /// The deferred final compression of this chunk, its last block marked
    /// with the chunk-end flag.
    pub fn output(&self) -> (o: Output)
        requires
            self.wf(),
        ensures
            o@ == chunk_output(self@),
    {
        let block_words = words_16_from(array_as_slice(&self.block), 0);
        proof {
            assert(pad64(self@.block) =~= self.block@.subrange(0, 64));
        }
        let sf = if self.blocks_compressed == 0 {
            CHUNK_START
        } else {
            0
        };
        let o = Output {
            input_chaining_value: self.chaining_value,
            block_words,
            counter: self.chunk_counter,
            block_len: self.block_len as u32,
            flags: self.flags | sf | CHUNK_END,
        };
        proof {
            assert(o@ =~= chunk_output(self@));
        }
        o
    }
}

/// Executable deferred compression: holds every input of one compression
/// call so the caller can still decide between a chaining value and the
/// root keystream.
pub struct Output {
    pub input_chaining_value: [u32; 8],
    pub block_words: [u32; 16],
    pub counter: u64,
    pub block_len: u32,
    pub flags: u32,
}

impl View for Output {
    type V = OutputV;

    open spec fn view(&self) -> OutputV {
        OutputV {
            input_cv: self.input_chaining_value@,
            block_words: self.block_words@,
            counter: self.counter,
            block_len: self.block_len,
            flags: self.flags,
        }
    }
}

impl Output {
    /// The chaining value this position contributes to its parent.
    pub fn chaining_value(&self) -> (cv: [u32; 8])
        ensures
            cv@ == output_cv(self@),
    {
        let words = compress(
            &self.input_chaining_value,
            &self.block_words,
            self.counter,
            self.block_len,
            self.flags,
        );
        first_8_words(&words)
    }

    /// Reads `out_len` bytes of the root keystream: the same compression is
    /// re-run with an incrementing output-block counter and the root flag,
    /// so earlier bytes never depend on how many are requested.
    pub fn root_output_bytes(&self, out_len: usize) -> (out: Vec<u8>)
        ensures
            out@ == root_bytes(self@, out_len as nat),
    {
        let mut out: Vec<u8> = Vec::new();
        let mut t: u64 = 0;
        while out.len() < out_len
            invariant
                out@.len() <= out_len,
                out@.len() == 64 * t || out@.len() == out_len,
                forall|m: int|
                    0 <= m < out@.len() ==> out@[m] == root_block(self@, (m / 64) as u64)[m % 64],
            decreases out_len - out@.len(),
        {
            let words = compress(
                &self.input_chaining_value,
                &self.block_words,
                t,
                self.block_len,
                self.flags | ROOT,
            );
            let mut j: usize = 0;
            while j < 64 && out.len() < out_len
                invariant
                    j <= 64,
                    out@.len() <= out_len,
                    out@.len() == 64 * t + j || out@.len() == out_len,
                    words@ == compress_spec(
                        self@.input_cv,
                        self@.block_words,
                        t,
                        self@.block_len,
                        self@.flags | ROOT,
                    ),
                    forall|m: int|
                        0 <= m < out@.len() ==> out@[m] == root_block(self@, (m / 64) as u64)[m
                            % 64],
                decreases 64 - j,
            {
                let w = words[j / 4];
                let b = byte_from_word(w, j % 4);
                proof {
                    let m = out@.len() as int;
                    assert(m == 64 * t + j);
                    assert(m / 64 == t && m % 64 == j as int) by (nonlinear_arith)
                        requires
                            m == 64 * (t as int) + (j as int),
                            0 <= j < 64,
                            t >= 0,
                    ;
                    assert(root_block(self@, t)[j as int] == byte_of(
                        compress_spec(
                            self@.input_cv,
                            self@.block_words,
                            t,
                            self@.block_len,
                            self@.flags | ROOT,
                        )[j as int / 4],
                        j as int % 4,
                    ));
                }
                out.push(b);
                j = j + 1;
            }
            if out.len() < out_len {
                t = t + 1;
            }
        }
        proof {
            assert(out@ =~= root_bytes(self@, out_len as nat));
        }
        out
    }
}

} // verus!
