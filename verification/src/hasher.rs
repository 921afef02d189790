//! The incremental hasher: accepts streamed input of arbitrary length,
//! buffers it into chunks, keeps the chaining values of completed subtrees on
//! a stack, and produces the root output on finalization.
//!
//! The stack invariant mirrors binary-counter carry propagation: completing
//! chunk number `t` merges as many stack entries as `t` has trailing zero
//! bits, so the stack always encodes the balanced-binary decomposition of the
//! chunks completed so far.  The model (`hasher_push_byte`, folded by
//! `hasher_add`) consumes one byte at a time, which makes the central law —
//! any split of the input into `update` calls yields the same digest — an
//! associativity property of the fold (`lemma_update_split`).

use vstd::prelude::*;

use crate::chunk::{
    chunk_add, chunk_len_v, chunk_new_v, chunk_output, chunk_push_byte, ChunkState,
    ChunkV, lemma_chunk_add_props, Output, output_cv, OutputV, pad64, root_bytes,
};
use crate::compress::{iv, iv_words, words_8_from, words_of};
use crate::{CHUNK_END, CHUNK_LEN, CHUNK_START, DERIVE_KEY_CONTEXT, DERIVE_KEY_MATERIAL, KEY_LEN,
    KEYED_HASH, PARENT};
use vstd::array::array_as_slice;
use vstd::slice::slice_subrange;

verus! {

/// Mathematical state of the incremental hasher: the chunk in progress, the
/// key words, the stack of completed-subtree chaining values (bottom of the
/// tree last), and the mode flags of the whole computation.
#[verifier::ext_equal]
pub ghost struct HasherV {
    pub chunk: ChunkV,
    pub key: Seq<u32>,
    pub stack: Seq<Seq<u32>>,
    pub flags: u32,
}

/// A fresh hasher in the given mode: empty first chunk, empty stack.
pub open spec fn hasher_new_v(key: Seq<u32>, flags: u32) -> HasherV {
    HasherV { chunk: chunk_new_v(key, 0, flags), key, stack: Seq::empty(), flags }
}

/// A parent-node compression position: its message is the two child chaining
/// values, its chaining value is the key, its counter is zero.
pub open spec fn parent_output_v(l: Seq<u32>, r: Seq<u32>, key: Seq<u32>, flags: u32) -> OutputV {
    OutputV { input_cv: key, block_words: l + r, counter: 0, block_len: 64, flags: flags | PARENT }
}

/// The chaining value of a parent node over two children.
pub open spec fn parent_cv(l: Seq<u32>, r: Seq<u32>, key: Seq<u32>, flags: u32) -> Seq<u32> {
    output_cv(parent_output_v(l, r, key, flags))
}

/// Carry propagation: after completing chunk number `total` (1-based), the
/// new chaining value absorbs one stack entry per trailing zero bit of
/// `total`, so no two equal-sized subtrees remain adjacent on the stack.
pub open spec fn merge_stack(
    stack: Seq<Seq<u32>>,
    cv: Seq<u32>,
    total: u64,
    key: Seq<u32>,
    flags: u32,
) -> Seq<Seq<u32>>
    decreases total,
{
    if total > 0 && total % 2 == 0 && stack.len() > 0 {
        merge_stack(
            stack.drop_last(),
            parent_cv(stack.last(), cv, key, flags),
            total / 2,
            key,
            flags,
        )
    } else {
        stack.push(cv)
    }
}

/// If the chunk in progress is complete, push its chaining value (with carry
/// propagation) and start the next chunk; otherwise do nothing.
pub open spec fn hasher_flush(h: HasherV) -> HasherV {
    if chunk_len_v(h.chunk) == 1024 {
        let chunk_cv = output_cv(chunk_output(h.chunk));
        let total = (h.chunk.counter + 1) as u64;
        HasherV {
            chunk: chunk_new_v(h.key, total, h.flags),
            key: h.key,
            stack: merge_stack(h.stack, chunk_cv, total, h.key, h.flags),
            flags: h.flags,
        }
    } else {
        h
    }
}

/// One step of the hasher state machine: complete a full chunk, then hand
/// the byte to the chunk in progress.
pub open spec fn hasher_push_byte(h: HasherV, b: u8) -> HasherV {
    let h1 = hasher_flush(h);
    HasherV { chunk: chunk_push_byte(h1.chunk, b), ..h1 }
}

/// The hasher state machine folded over a byte sequence: the reference
/// meaning of feeding bytes, independent of how `update` calls slice them.
pub open spec fn hasher_add(h: HasherV, bytes: Seq<u8>) -> HasherV
    decreases bytes.len(),
{
    if bytes.len() == 0 {
        h
    } else {
        hasher_add(hasher_push_byte(h, bytes[0]), bytes.drop_first())
    }
}

/// Total number of message bytes a hasher state stands for.
pub open spec fn consumed(h: HasherV) -> int {
    h.chunk.counter * 1024 + chunk_len_v(h.chunk)
}

/// Merges the remaining stack entries, top down, into a single deferred root
/// compression; the root flag is applied only when its keystream is read.
pub open spec fn fold_parents(stack: Seq<Seq<u32>>, o: OutputV, key: Seq<u32>, flags: u32) -> OutputV
    decreases stack.len(),
{
    if stack.len() == 0 {
        o
    } else {
        fold_parents(
            stack.drop_last(),
            parent_output_v(stack.last(), output_cv(o), key, flags),
            key,
            flags,
        )
    }
}

/// The first `n` bytes of the digest of a hasher state: all subtrees merged
/// into one root position, read as a keystream.
pub open spec fn hasher_finalize(h: HasherV, n: nat) -> Seq<u8> {
    root_bytes(fold_parents(h.stack, chunk_output(h.chunk), h.key, h.flags), n)
}

/// The key a derivation context string stands for: the 32-byte digest of the
/// context, hashed in the derive-context mode.
pub open spec fn derive_context_key(ctx: Seq<u8>) -> Seq<u8> {
    hasher_finalize(hasher_add(hasher_new_v(iv(), DERIVE_KEY_CONTEXT), ctx), 32)
}

/// Law: an input fed in two pieces leaves the hasher exactly where the
/// concatenation fed at once leaves it.  Applied inductively, any sequence
/// of `update` calls that reconstructs a byte sequence yields the same state,
/// and therefore the same digest.
pub proof fn lemma_update_split(h: HasherV, a: Seq<u8>, b: Seq<u8>)
    ensures
        hasher_add(hasher_add(h, a), b) == hasher_add(h, a + b),
    decreases a.len(),
{
    if a.len() == 0 {
        assert(a + b =~= b);
    } else {
        assert((a + b)[0] == a[0]);
        assert((a + b).drop_first() =~= a.drop_first() + b);
        lemma_update_split(hasher_push_byte(h, a[0]), a.drop_first(), b);
    }
}

/// Law: the extended output is a prefix-stable keystream — the first `l`
/// bytes of a longer request equal the `l`-byte request, for every state.
pub proof fn lemma_output_prefix(h: HasherV, l: nat, m: nat)
    requires
        l <= m,
    ensures
        hasher_finalize(h, l) == hasher_finalize(h, m).take(l as int),
{
    assert(hasher_finalize(h, l) =~= hasher_finalize(h, m).take(l as int));
}

/// Law: finalizing with zero bytes ever supplied reads the keystream of a
/// single compression of the zero block, with length zero, counter zero, and
/// the chunk-start and chunk-end flags both set (the root flag is added by
/// the keystream itself).
pub proof fn lemma_empty_input(key: Seq<u32>, flags: u32, n: nat)
    ensures
        hasher_finalize(hasher_new_v(key, flags), n) == root_bytes(
            (OutputV {
                input_cv: key,
                block_words: Seq::new(16, |i: int| 0u32),
                counter: 0,
                block_len: 0,
                flags: flags | CHUNK_START | CHUNK_END,
            }),
            n,
        ),
{
    let h = hasher_new_v(key, flags);
    assert(fold_parents(h.stack, chunk_output(h.chunk), h.key, h.flags) == chunk_output(h.chunk));
    assert((0u32 << 8u32) == 0u32) by (bit_vector);
    assert((0u32 << 16u32) == 0u32) by (bit_vector);
    assert((0u32 << 24u32) == 0u32) by (bit_vector);
    assert(0u32 | 0u32 == 0u32) by (bit_vector);
    assert(pad64(Seq::<u8>::empty()) =~= Seq::new(64, |i: int| 0u8));
    assert(words_of(pad64(Seq::<u8>::empty())) =~= Seq::new(16, |i: int| 0u32));
    assert(chunk_output(h.chunk) =~= (OutputV {
        input_cv: key,
        block_words: Seq::new(16, |i: int| 0u32),
        counter: 0,
        block_len: 0,
        flags: flags | CHUNK_START | CHUNK_END,
    }));
}

/// Law: an input short enough to be a single chunk never grows the subtree
/// stack, so its digest is read directly from that chunk's own final block
/// compression — the root flag applies to the chunk, with no parent merge.
pub proof fn lemma_single_chunk_root(key: Seq<u32>, flags: u32, bytes: Seq<u8>, n: nat)
    requires
        bytes.len() <= 1024,
    ensures
        hasher_finalize(hasher_add(hasher_new_v(key, flags), bytes), n) == root_bytes(
            chunk_output(chunk_add(chunk_new_v(key, 0, flags), bytes)),
            n,
        ),
{
    let h = hasher_new_v(key, flags);
    if bytes.len() == 0 {
        assert(chunk_add(chunk_new_v(key, 0, flags), bytes) == h.chunk);
        assert(fold_parents(h.stack, chunk_output(h.chunk), h.key, h.flags)
            == chunk_output(h.chunk));
    } else {
        lemma_hasher_add_fill(h, bytes);
        let hend = hasher_add(h, bytes);
        assert(hend.stack.len() == 0);
        assert(fold_parents(hend.stack, chunk_output(hend.chunk), hend.key, hend.flags)
            == chunk_output(hend.chunk));
    }
}

/// Folding bytes into a hasher consumes exactly one byte per step and leaves
/// the key, the mode flags and the buffer bound intact.
pub proof fn lemma_hasher_add_consumed(h: HasherV, bytes: Seq<u8>)
    requires
        h.chunk.block.len() <= 64,
        h.chunk.flags == h.flags,
        consumed(h) + bytes.len() < 1024 * 0x1_0000_0000_0000_0000,
    ensures
        consumed(hasher_add(h, bytes)) == consumed(h) + bytes.len(),
        hasher_add(h, bytes).chunk.block.len() <= 64,
        hasher_add(h, bytes).key == h.key,
        hasher_add(h, bytes).flags == h.flags,
        hasher_add(h, bytes).chunk.flags == h.flags,
    decreases bytes.len(),
{
    if bytes.len() > 0 {
        let h1 = hasher_push_byte(h, bytes[0]);
        if chunk_len_v(h.chunk) == 1024 {
            assert((h.chunk.counter as int) * 1024 + 1024 == consumed(h));
            assert(h.chunk.counter + 1 < 0x1_0000_0000_0000_0000);
            assert(consumed(hasher_flush(h)) == consumed(h));
        }
        assert(consumed(h1) == consumed(h) + 1);
        lemma_hasher_add_consumed(h1, bytes.drop_first());
    }
}

/// Bytes that fit in the chunk in progress after at most one chunk
/// completion are simply handed to that chunk: the hasher fold equals one
/// flush followed by the chunk fold.
pub proof fn lemma_hasher_add_fill(h: HasherV, bytes: Seq<u8>)
    requires
        bytes.len() >= 1,
        h.chunk.block.len() <= 64,
        chunk_len_v(hasher_flush(h).chunk) + bytes.len() <= 1024,
    ensures
        hasher_add(h, bytes) == (HasherV {
            chunk: chunk_add(hasher_flush(h).chunk, bytes),
            ..hasher_flush(h)
        }),
    decreases bytes.len(),
{
    let hf = hasher_flush(h);
    let h1 = hasher_push_byte(h, bytes[0]);
    assert(h1 == (HasherV { chunk: chunk_push_byte(hf.chunk, bytes[0]), ..hf }));
    assert(chunk_len_v(chunk_push_byte(hf.chunk, bytes[0])) == chunk_len_v(hf.chunk) + 1);
    if bytes.len() == 1 {
        assert(bytes.drop_first().len() == 0);
        assert(hasher_add(h1, bytes.drop_first()) == h1);
        assert(chunk_add(chunk_push_byte(hf.chunk, bytes[0]), bytes.drop_first())
            == chunk_push_byte(hf.chunk, bytes[0]));
        assert(chunk_add(hf.chunk, bytes) == chunk_push_byte(hf.chunk, bytes[0]));
    } else {
        assert(chunk_len_v(h1.chunk) < 1024);
        assert(hasher_flush(h1) == h1);
        lemma_hasher_add_fill(h1, bytes.drop_first());
        assert(chunk_add(hf.chunk, bytes) == chunk_add(
            chunk_push_byte(hf.chunk, bytes[0]),
            bytes.drop_first(),
        ));
        assert(hasher_add(h, bytes) =~= (HasherV {
            chunk: chunk_add(hf.chunk, bytes),
            ..hf
        }));
    }
}

/// The incremental hasher.  `update` never fails; `finalize` does not mutate
/// the hasher, so updating may continue after reading a digest.
pub struct Hasher {
    pub chunk_state: ChunkState,
    pub key_words: [u32; 8],
    pub cv_stack: Vec<[u32; 8]>,
    pub flags: u32,
}

impl View for Hasher {
    type V = HasherV;

    open spec fn view(&self) -> HasherV {
        HasherV {
            chunk: self.chunk_state@,
            key: self.key_words@,
            stack: self.cv_stack@.map_values(|cv: [u32; 8]| cv@),
            flags: self.flags,
        }
    }
}

impl Hasher {
    /// The representation invariant.
    pub open spec fn wf(&self) -> bool {
        &&& self.chunk_state.wf()
        &&& self.chunk_state.flags == self.flags
    }

    fn new_internal(key_words: [u32; 8], flags: u32) -> (h: Hasher)
        ensures
            h.wf(),
            h@ == hasher_new_v(key_words@, flags),
    {
        let h = Hasher {
            chunk_state: ChunkState::new(&key_words, 0, flags),
            key_words,
            cv_stack: Vec::new(),
            flags,
        };
        proof {
            assert(h@ =~= hasher_new_v(key_words@, flags));
        }
        h
    }

    /// A hasher for the default, unkeyed mode.
    pub fn new() -> (h: Hasher)
        ensures
            h.wf(),
            h@ == hasher_new_v(iv(), 0),
    {
        Self::new_internal(iv_words(), 0)
    }

    /// A hasher for the keyed mode: the caller's 32-byte key replaces the
    /// initialization vector and the keyed flag marks every compression.
    pub fn new_keyed(key: &[u8; 32]) -> (h: Hasher)
        ensures
            h.wf(),
            h@ == hasher_new_v(words_of(key@), KEYED_HASH),
    {
        let kw = words_8_from(array_as_slice(key));
        Self::new_internal(kw, KEYED_HASH)
    }

    /// A hasher for key derivation: the context string is hashed first in
    /// the derive-context mode, and its 32-byte digest keys the hashing of
    /// the key material.
    pub fn new_derive_key(context: &[u8]) -> (h: Hasher)
        ensures
            h.wf(),
            h@ == hasher_new_v(words_of(derive_context_key(context@)), DERIVE_KEY_MATERIAL),
    {
        let mut context_hasher = Self::new_internal(iv_words(), DERIVE_KEY_CONTEXT);
        let context_len: usize = context.len();
        proof {
            assert(consumed(context_hasher@) + context@.len() == context_len);
        }
        context_hasher.update(context);
        let context_key = context_hasher.finalize(KEY_LEN);
        let kw = words_8_from(context_key.as_slice());
        Self::new_internal(kw, DERIVE_KEY_MATERIAL)
    }

    /// Builds the parent-node position over two child chaining values.
    fn parent_output_exec(left: &[u32; 8], right: &[u32; 8], key: &[u32; 8], flags: u32) -> (o:
        Output)
        ensures
            o@ == parent_output_v(left@, right@, key@, flags),
    {
        let mut block_words = [0u32; 16];
        block_words[0] = left[0];
        block_words[1] = left[1];
        block_words[2] = left[2];
        block_words[3] = left[3];
        block_words[4] = left[4];
        block_words[5] = left[5];
        block_words[6] = left[6];
        block_words[7] = left[7];
        block_words[8] = right[0];
        block_words[9] = right[1];
        block_words[10] = right[2];
        block_words[11] = right[3];
        block_words[12] = right[4];
        block_words[13] = right[5];
        block_words[14] = right[6];
        block_words[15] = right[7];
        let o = Output {
            input_chaining_value: *key,
            block_words,
            counter: 0,
            block_len: 64,
            flags: flags | PARENT,
        };
        proof {
            assert(o@.block_words =~= left@ + right@);
            assert(o@ =~= parent_output_v(left@, right@, key@, flags));
        }
        o
    }

    /// The chaining value of a parent node over two children.
    fn parent_cv_exec(left: &[u32; 8], right: &[u32; 8], key: &[u32; 8], flags: u32) -> (cv: [u32;
        8])
        ensures
            cv@ == parent_cv(left@, right@, key@, flags),
    {
        let o = Self::parent_output_exec(left, right, key, flags);
        o.chaining_value()
    }

    /// Pushes a completed chunk's chaining value, merging stack entries as
    /// the trailing zero bits of `total_chunks` demand.
    fn add_chunk_cv(&mut self, new_cv: [u32; 8], total_chunks: u64)
        requires
            total_chunks >= 1,
        ensures
            final(self)@.stack == merge_stack(
                old(self)@.stack,
                new_cv@,
                total_chunks,
                old(self)@.key,
                old(self)@.flags,
            ),
            final(self).chunk_state == old(self).chunk_state,
            final(self).key_words == old(self).key_words,
            final(self).flags == old(self).flags,
    {
        let mut cv = new_cv;
        let mut total = total_chunks;
        while total % 2 == 0 && self.cv_stack.len() > 0
            invariant
                total >= 1,
                self.chunk_state == old(self).chunk_state,
                self.key_words == old(self).key_words,
                self.flags == old(self).flags,
                merge_stack(
                    old(self)@.stack,
                    new_cv@,
                    total_chunks,
                    old(self)@.key,
                    old(self)@.flags,
                ) == merge_stack(self@.stack, cv@, total, self@.key, self@.flags),
            decreases total,
        {
            let ghost pre_stack = self@.stack;
            let top = self.cv_stack.pop().unwrap();
            proof {
                assert(self@.stack =~= pre_stack.drop_last());
                assert(top@ == pre_stack.last());
            }
            cv = Self::parent_cv_exec(&top, &cv, &self.key_words, self.flags);
            total = total / 2;
        }
        let ghost pre_stack = self@.stack;
        self.cv_stack.push(cv);
        proof {
            assert(self@.stack =~= pre_stack.push(cv@));
        }
    }

    /// Feeds `input` to the hasher; the result is the byte-at-a-time fold
    /// `hasher_add`, whatever the slice boundaries of the `update` calls.
    pub fn update(&mut self, input: &[u8])
        requires
            old(self).wf(),
            consumed(old(self)@) + input@.len() < 1024 * 0x1_0000_0000_0000_0000,
        ensures
            final(self).wf(),
            final(self)@ == hasher_add(old(self)@, input@),
    {
        let ilen: usize = input.len();
        let mut i: usize = 0;
        while i < ilen
            invariant
                old(self).wf(),
                self.wf(),
                ilen == input@.len(),
                i <= ilen,
                consumed(old(self)@) + input@.len() < 1024 * 0x1_0000_0000_0000_0000,
                self@ == hasher_add(old(self)@, input@.take(i as int)),
            decreases ilen - i,
        {
            proof {
                lemma_hasher_add_consumed(old(self)@, input@.take(i as int));
            }
            let ghost hcur = self@;
            if self.chunk_state.len() == CHUNK_LEN {
                proof {
                    assert((hcur.chunk.counter as int) * 1024 + 1024 == consumed(hcur));
                    assert(hcur.chunk.counter + 1 < 0x1_0000_0000_0000_0000);
                }
                let chunk_output_obj = self.chunk_state.output();
                let chunk_cv = chunk_output_obj.chaining_value();
                let total_chunks = self.chunk_state.chunk_counter + 1;
                self.add_chunk_cv(chunk_cv, total_chunks);
                self.chunk_state = ChunkState::new(&self.key_words, total_chunks, self.flags);
                proof {
                    assert(self@ =~= hasher_flush(hcur));
                }
            }
            proof {
                assert(self@ == hasher_flush(hcur));
            }
            let clen_now = self.chunk_state.len();
            let want = CHUNK_LEN - clen_now;
            let rem = ilen - i;
            let take = if want < rem {
                want
            } else {
                rem
            };
            self.chunk_state.update(slice_subrange(input, i, i + take));
            proof {
                let piece = input@.subrange(i as int, i as int + take as int);
                lemma_chunk_add_props(hasher_flush(hcur).chunk, piece);
                lemma_hasher_add_fill(hcur, piece);
                assert(self@ =~= hasher_add(hcur, piece));
                lemma_update_split(old(self)@, input@.take(i as int), piece);
                assert(input@.take(i as int) + piece =~= input@.take(i as int + take as int));
            }
            i = i + take;
        }
        proof {
            assert(input@.take(ilen as int) =~= input@);
        }
    }

    /// Reads `out_len` bytes of the digest.  The hasher is not consumed:
    /// further `update` calls continue the same stream, and a longer request
    /// later extends this one byte-for-byte.
    pub fn finalize(&self, out_len: usize) -> (out: Vec<u8>)
        requires
            self.wf(),
        ensures
            out@ == hasher_finalize(self@, out_len as nat),
    {
        let mut output = self.chunk_state.output();
        let mut k = self.cv_stack.len();
        proof {
            assert(self@.stack.take(k as int) =~= self@.stack);
        }
        while k > 0
            invariant
                self.wf(),
                k <= self.cv_stack@.len(),
                fold_parents(self@.stack, chunk_output(self@.chunk), self@.key, self@.flags)
                    == fold_parents(self@.stack.take(k as int), output@, self@.key, self@.flags),
            decreases k,
        {
            k = k - 1;
            let left = self.cv_stack[k];
            let right_cv = output.chaining_value();
            proof {
                assert(self@.stack.take(k as int + 1).drop_last() =~= self@.stack.take(k as int));
                assert(self@.stack.take(k as int + 1).last() == self@.stack[k as int]);
                assert(left@ == self@.stack[k as int]);
            }
            output = Self::parent_output_exec(&left, &right_cv, &self.key_words, self.flags);
        }
        proof {
            assert(self@.stack.take(0) =~= Seq::<Seq<u32>>::empty());
        }
        output.root_output_bytes(out_len)
    }
}

} // verus!
