//! The compression function: a pure map from (chaining value, block, counter,
//! block length, flags) to 16 words of output, together with the byte/word
//! conversions the rest of the engine needs.
//!
//! Every executable function here is proved equal to a spec-level model
//! (`compress_spec` and its helpers), so that the chunk and tree layers can
//! state their contracts purely over those models.

use vstd::prelude::*;

verus! {

/// First word of the initialization-vector constant.
pub const IV_0: u32 = 0x6A09E667;

/// Second word of the initialization-vector constant.
pub const IV_1: u32 = 0xBB67AE85;

/// Third word of the initialization-vector constant.
pub const IV_2: u32 = 0x3C6EF372;

/// Fourth word of the initialization-vector constant.
pub const IV_3: u32 = 0xA54FF53A;

/// Fifth word of the initialization-vector constant.
pub const IV_4: u32 = 0x510E527F;

/// Sixth word of the initialization-vector constant.
pub const IV_5: u32 = 0x9B05688C;

/// Seventh word of the initialization-vector constant.
pub const IV_6: u32 = 0x1F83D9AB;

/// Eighth word of the initialization-vector constant.
pub const IV_7: u32 = 0x5BE0CD19;

/// The eight initialization-vector words, also the default (unkeyed) key.
pub open spec fn iv() -> Seq<u32> {
    seq![IV_0, IV_1, IV_2, IV_3, IV_4, IV_5, IV_6, IV_7]
}

/// The initialization-vector words as an array, for executable code.
pub fn iv_words() -> (r: [u32; 8])
    ensures
        r@ == iv(),
{
    let r = [IV_0, IV_1, IV_2, IV_3, IV_4, IV_5, IV_6, IV_7];
    proof {
        assert(r@ =~= iv());
    }
    r
}

/// Addition modulo 2^32.
pub open spec fn wadd(x: u32, y: u32) -> u32 {
    vstd::wrapping::u32_specs::wrapping_add(x, y)
}

/// Right rotation of a 32-bit word by `n` places, `0 < n < 32`.
pub open spec fn rotr_spec(x: u32, n: u32) -> u32 {
    (x >> n) | (x << ((32 - n) as u32))
}

fn rotr(x: u32, n: u32) -> (r: u32)
    requires
        0 < n < 32,
    ensures
        r == rotr_spec(x, n),
{
    (x >> n) | (x << (32 - n))
}

/// The quarter-round mix: updates the four state words at positions
/// `a, b, c, d` with the two message words `mx, my`.
pub open spec fn g_spec(s: Seq<u32>, a: int, b: int, c: int, d: int, mx: u32, my: u32) -> Seq<u32>
    recommends
        s.len() == 16,
        0 <= a < 16,
        0 <= b < 16,
        0 <= c < 16,
        0 <= d < 16,
{
    let sa1 = wadd(wadd(s[a], s[b]), mx);
    let sd1 = rotr_spec(s[d] ^ sa1, 16);
    let sc1 = wadd(s[c], sd1);
    let sb1 = rotr_spec(s[b] ^ sc1, 12);
    let sa2 = wadd(wadd(sa1, sb1), my);
    let sd2 = rotr_spec(sd1 ^ sa2, 8);
    let sc2 = wadd(sc1, sd2);
    let sb2 = rotr_spec(sb1 ^ sc2, 7);
    s.update(a, sa2).update(b, sb2).update(c, sc2).update(d, sd2)
}

fn g(state: &mut [u32; 16], a: usize, b: usize, c: usize, d: usize, mx: u32, my: u32)
    requires
        a < 16,
        b < 16,
        c < 16,
        d < 16,
        a != b,
        a != c,
        a != d,
        b != c,
        b != d,
        c != d,
    ensures
        final(state)@ == g_spec(old(state)@, a as int, b as int, c as int, d as int, mx, my),
{
    state[a] = state[a].wrapping_add(state[b]).wrapping_add(mx);
    state[d] = rotr(state[d] ^ state[a], 16);
    state[c] = state[c].wrapping_add(state[d]);
    state[b] = rotr(state[b] ^ state[c], 12);
    state[a] = state[a].wrapping_add(state[b]).wrapping_add(my);
    state[d] = rotr(state[d] ^ state[a], 8);
    state[c] = state[c].wrapping_add(state[d]);
    state[b] = rotr(state[b] ^ state[c], 7);
    proof {
        assert(state@ =~= g_spec(
            old(state)@,
            a as int,
            b as int,
            c as int,
            d as int,
            mx,
            my,
        ));
    }
}

/// One full round: mix the four columns, then the four diagonals.
pub open spec fn round_spec(s: Seq<u32>, m: Seq<u32>) -> Seq<u32>
    recommends
        s.len() == 16,
        m.len() == 16,
{
    let s1 = g_spec(s, 0, 4, 8, 12, m[0], m[1]);
    let s2 = g_spec(s1, 1, 5, 9, 13, m[2], m[3]);
    let s3 = g_spec(s2, 2, 6, 10, 14, m[4], m[5]);
    let s4 = g_spec(s3, 3, 7, 11, 15, m[6], m[7]);
    let s5 = g_spec(s4, 0, 5, 10, 15, m[8], m[9]);
    let s6 = g_spec(s5, 1, 6, 11, 12, m[10], m[11]);
    let s7 = g_spec(s6, 2, 7, 8, 13, m[12], m[13]);
    g_spec(s7, 3, 4, 9, 14, m[14], m[15])
}

fn round(state: &mut [u32; 16], m: &[u32; 16])
    ensures
        final(state)@ == round_spec(old(state)@, m@),
{
    // Mix the columns.
    g(state, 0, 4, 8, 12, m[0], m[1]);
    g(state, 1, 5, 9, 13, m[2], m[3]);
    g(state, 2, 6, 10, 14, m[4], m[5]);
    g(state, 3, 7, 11, 15, m[6], m[7]);
    // Mix the diagonals.
    g(state, 0, 5, 10, 15, m[8], m[9]);
    g(state, 1, 6, 11, 12, m[10], m[11]);
    g(state, 2, 7, 8, 13, m[12], m[13]);
    g(state, 3, 4, 9, 14, m[14], m[15]);
}

/// The fixed message-word permutation applied between rounds.
pub open spec fn permute_spec(m: Seq<u32>) -> Seq<u32>
    recommends
        m.len() == 16,
{
    seq![
        m[2], m[6], m[3], m[10], m[7], m[0], m[4], m[13],
        m[1], m[11], m[12], m[5], m[9], m[14], m[15], m[8],
    ]
}

fn permute(m: &mut [u32; 16])
    ensures
        final(m)@ == permute_spec(old(m)@),
{
    let permuted = [
        m[2], m[6], m[3], m[10], m[7], m[0], m[4], m[13],
        m[1], m[11], m[12], m[5], m[9], m[14], m[15], m[8],
    ];
    *m = permuted;
    proof {
        assert(m@ =~= permute_spec(old(m)@));
    }
}

/// Low 32 bits of the chunk counter.
pub open spec fn counter_low(c: u64) -> u32 {
    (c & 0xffff_ffff) as u32
}

/// High 32 bits of the chunk counter.
pub open spec fn counter_high(c: u64) -> u32 {
    (c >> 32u64) as u32
}

/// The 16-word state the compression function starts from: the chaining
/// value, four initialization words, and the counter / length / flags words.
pub open spec fn init_state(cv: Seq<u32>, counter: u64, block_len: u32, flags: u32) -> Seq<u32>
    recommends
        cv.len() == 8,
{
    seq![
        cv[0], cv[1], cv[2], cv[3], cv[4], cv[5], cv[6], cv[7],
        IV_0, IV_1, IV_2, IV_3,
        counter_low(counter), counter_high(counter), block_len, flags,
    ]
}

/// Seven rounds, permuting the message words between rounds.
pub open spec fn rounds7(s: Seq<u32>, m: Seq<u32>) -> Seq<u32>
    recommends
        s.len() == 16,
        m.len() == 16,
{
    let s1 = round_spec(s, m);
    let m1 = permute_spec(m);
    let s2 = round_spec(s1, m1);
    let m2 = permute_spec(m1);
    let s3 = round_spec(s2, m2);
    let m3 = permute_spec(m2);
    let s4 = round_spec(s3, m3);
    let m4 = permute_spec(m3);
    let s5 = round_spec(s4, m4);
    let m5 = permute_spec(m4);
    let s6 = round_spec(s5, m5);
    let m6 = permute_spec(m5);
    round_spec(s6, m6)
}

/// The compression function: a total, deterministic map from a chaining
/// value, a 16-word block, the chunk counter, the true block length and the
/// flag word to 16 words of output.  The first eight output words are the
/// chaining value propagated up the tree; all sixteen seed the extended
/// output stream at the root.
#[verifier::opaque]
pub open spec fn compress_spec(
    cv: Seq<u32>,
    block: Seq<u32>,
    counter: u64,
    block_len: u32,
    flags: u32,
) -> Seq<u32>
    recommends
        cv.len() == 8,
        block.len() == 16,
{
    fold_output(rounds7(init_state(cv, counter, block_len, flags), block), cv)
}

/// The feed-forward that ends a compression: the two state halves are folded
/// together, and the second half is folded with the input chaining value.
pub open spec fn fold_output(st: Seq<u32>, cv: Seq<u32>) -> Seq<u32>
    recommends
        st.len() == 16,
        cv.len() == 8,
{
    Seq::new(16, |i: int| if i < 8 {
        st[i] ^ st[i + 8]
    } else {
        st[i] ^ cv[i - 8]
    })
}

fn xor_halves(state: &mut [u32; 16], cv: &[u32; 8])
    ensures
        final(state)@ == fold_output(old(state)@, cv@),
{
    state[0] = state[0] ^ state[8];
    state[1] = state[1] ^ state[9];
    state[2] = state[2] ^ state[10];
    state[3] = state[3] ^ state[11];
    state[4] = state[4] ^ state[12];
    state[5] = state[5] ^ state[13];
    state[6] = state[6] ^ state[14];
    state[7] = state[7] ^ state[15];
    state[8] = state[8] ^ cv[0];
    state[9] = state[9] ^ cv[1];
    state[10] = state[10] ^ cv[2];
    state[11] = state[11] ^ cv[3];
    state[12] = state[12] ^ cv[4];
    state[13] = state[13] ^ cv[5];
    state[14] = state[14] ^ cv[6];
    state[15] = state[15] ^ cv[7];
    proof {
        assert(state@ =~= fold_output(old(state)@, cv@));
    }
}

/// The first eight words of a compression output: the chaining value.
pub open spec fn first8(s: Seq<u32>) -> Seq<u32> {
    s.take(8)
}

/// Executable compression function, proved equal to `compress_spec`.
#[verifier::rlimit(60)]
pub fn compress(
    chaining_value: &[u32; 8],
    block_words: &[u32; 16],
    counter: u64,
    block_len: u32,
    flags: u32,
) -> (r: [u32; 16])
    ensures
        r@ == compress_spec(chaining_value@, block_words@, counter, block_len, flags),
{
    proof {
        assert((counter & 0xffff_ffff) <= 0xffff_ffff) by (bit_vector);
        assert((counter >> 32u64) < 0x1_0000_0000) by (bit_vector);
    }
    let counter_lo = (counter & 0xffff_ffff) as u32;
    let counter_hi = (counter >> 32) as u32;
    let mut state: [u32; 16] = [
        chaining_value[0],
        chaining_value[1],
        chaining_value[2],
        chaining_value[3],
        chaining_value[4],
        chaining_value[5],
        chaining_value[6],
        chaining_value[7],
        IV_0,
        IV_1,
        IV_2,
        IV_3,
        counter_lo,
        counter_hi,
        block_len,
        flags,
    ];
    proof {
        assert(state@ =~= init_state(chaining_value@, counter, block_len, flags));
    }
    let mut block = *block_words;
    round(&mut state, &block);  // round 1
    permute(&mut block);
    round(&mut state, &block);  // round 2
    permute(&mut block);
    round(&mut state, &block);  // round 3
    permute(&mut block);
    round(&mut state, &block);  // round 4
    permute(&mut block);
    round(&mut state, &block);  // round 5
    permute(&mut block);
    round(&mut state, &block);  // round 6
    permute(&mut block);
    round(&mut state, &block);  // round 7
    xor_halves(&mut state, chaining_value);
    proof {
        reveal(compress_spec);
        assert(state@ == compress_spec(chaining_value@, block_words@, counter, block_len, flags));
    }
    state
}

/// Executable extraction of the chaining value from a compression output.
pub fn first_8_words(words: &[u32; 16]) -> (r: [u32; 8])
    ensures
        r@ == first8(words@),
{
    let r = [
        words[0], words[1], words[2], words[3], words[4], words[5], words[6], words[7],
    ];
    proof {
        assert(r@ =~= first8(words@));
    }
    r
}

/// The 32-bit word read little-endian from bytes `4i .. 4i+4` of `b`.
pub open spec fn word_at(b: Seq<u8>, i: int) -> u32
    recommends
        0 <= i,
        4 * i + 4 <= b.len(),
{
    (b[4 * i] as u32) | ((b[4 * i + 1] as u32) << 8u32) | ((b[4 * i + 2] as u32) << 16u32) | ((b[
        4 * i + 3] as u32) << 24u32)
}

/// The words read little-endian from a byte sequence whose length is a
/// multiple of four.
pub open spec fn words_of(b: Seq<u8>) -> Seq<u32> {
    Seq::new(b.len() / 4, |i: int| word_at(b, i))
}

/// Reads the 16 block words little-endian from `b[off .. off + 64]`.
pub fn words_16_from(b: &[u8], off: usize) -> (w: [u32; 16])
    requires
        off + 64 <= b@.len(),
    ensures
        w@ == words_of(b@.subrange(off as int, off as int + 64)),
{
    let mut w: [u32; 16] = [0u32; 16];
    let blen = b.len();
    let mut i: usize = 0;
    while i < 16
        invariant
            i <= 16,
            blen == b@.len(),
            off + 64 <= b@.len(),
            forall|j: int|
                0 <= j < i ==> w@[j] == word_at(b@.subrange(off as int, off as int + 64), j),
        decreases 16 - i,
    {
        let x0 = b[off + 4 * i] as u32;
        let x1 = b[off + 4 * i + 1] as u32;
        let x2 = b[off + 4 * i + 2] as u32;
        let x3 = b[off + 4 * i + 3] as u32;
        w[i] = x0 | (x1 << 8u32) | (x2 << 16u32) | (x3 << 24u32);
        i = i + 1;
    }
    proof {
        assert(w@ =~= words_of(b@.subrange(off as int, off as int + 64)));
    }
    w
}

/// Byte `j` (little-endian, `0 <= j < 4`) of the word `w`.
pub open spec fn byte_of(w: u32, j: int) -> u8 {
    if j == 0 {
        (w & 0xff) as u8
    } else if j == 1 {
        ((w >> 8u32) & 0xff) as u8
    } else if j == 2 {
        ((w >> 16u32) & 0xff) as u8
    } else {
        ((w >> 24u32) & 0xff) as u8
    }
}

/// The little-endian byte sequence of a word sequence.
pub open spec fn bytes_of_words(ws: Seq<u32>) -> Seq<u8> {
    Seq::new(ws.len() * 4, |i: int| byte_of(ws[i / 4], i % 4))
}

/// Law: serializing words little-endian and reading them back is the
/// identity, so chaining values handed out as bytes re-enter the engine
/// unchanged.
pub proof fn lemma_words_bytes_roundtrip(ws: Seq<u32>)
    ensures
        words_of(bytes_of_words(ws)) == ws,
{
    let bs = bytes_of_words(ws);
    assert forall|i: int| 0 <= i < ws.len() implies word_at(bs, i) == ws[i] by {
        assert((4 * i) / 4 == i && (4 * i) % 4 == 0) by (nonlinear_arith)
            requires
                i >= 0,
        ;
        assert((4 * i + 1) / 4 == i && (4 * i + 1) % 4 == 1) by (nonlinear_arith)
            requires
                i >= 0,
        ;
        assert((4 * i + 2) / 4 == i && (4 * i + 2) % 4 == 2) by (nonlinear_arith)
            requires
                i >= 0,
        ;
        assert((4 * i + 3) / 4 == i && (4 * i + 3) % 4 == 3) by (nonlinear_arith)
            requires
                i >= 0,
        ;
        let w = ws[i];
        assert(((w & 0xff) as u8 as u32) | ((((w >> 8u32) & 0xff) as u8 as u32) << 8u32) | ((((w
            >> 16u32) & 0xff) as u8 as u32) << 16u32) | ((((w >> 24u32) & 0xff) as u8 as u32)
            << 24u32) == w) by (bit_vector);
    }
    assert(words_of(bs) =~= ws);
}

proof fn lemma_byte_masks(w: u32)
    ensures
        w & 0xff <= 0xff,
        (w >> 8u32) & 0xff <= 0xff,
        (w >> 16u32) & 0xff <= 0xff,
        (w >> 24u32) & 0xff <= 0xff,
{
    assert(w & 0xff <= 0xff) by (bit_vector);
    assert((w >> 8u32) & 0xff <= 0xff) by (bit_vector);
    assert((w >> 16u32) & 0xff <= 0xff) by (bit_vector);
    assert((w >> 24u32) & 0xff <= 0xff) by (bit_vector);
}

/// Extracts little-endian byte `j` of the word `w`.
pub fn byte_from_word(w: u32, j: usize) -> (b: u8)
    requires
        j < 4,
    ensures
        b == byte_of(w, j as int),
{
    proof {
        lemma_byte_masks(w);
    }
    if j == 0 {
        (w & 0xff) as u8
    } else if j == 1 {
        ((w >> 8) & 0xff) as u8
    } else if j == 2 {
        ((w >> 16) & 0xff) as u8
    } else {
        ((w >> 24) & 0xff) as u8
    }
}

/// Reads eight words little-endian from a 32-byte key or chaining value.
pub fn words_8_from(b: &[u8]) -> (w: [u32; 8])
    requires
        b@.len() == 32,
    ensures
        w@ == words_of(b@),
{
    let mut w: [u32; 8] = [0u32; 8];
    let blen = b.len();
    let mut i: usize = 0;
    while i < 8
        invariant
            i <= 8,
            blen == b@.len(),
            b@.len() == 32,
            forall|j: int| 0 <= j < i ==> w@[j] == word_at(b@, j),
        decreases 8 - i,
    {
        let x0 = b[4 * i] as u32;
        let x1 = b[4 * i + 1] as u32;
        let x2 = b[4 * i + 2] as u32;
        let x3 = b[4 * i + 3] as u32;
        w[i] = x0 | (x1 << 8u32) | (x2 << 16u32) | (x3 << 24u32);
        i = i + 1;
    }
    proof {
        assert(w@ =~= words_of(b@));
    }
    w
}

/// Appends the four little-endian bytes of `w` to `out`.
pub fn push_word_bytes(out: &mut Vec<u8>, w: u32)
    ensures
        final(out)@ == old(out)@ + seq![byte_of(w, 0), byte_of(w, 1), byte_of(w, 2), byte_of(w, 3)],
{
    proof {
        lemma_byte_masks(w);
    }
    out.push((w & 0xff) as u8);
    out.push(((w >> 8) & 0xff) as u8);
    out.push(((w >> 16) & 0xff) as u8);
    out.push(((w >> 24) & 0xff) as u8);
    proof {
        assert(out@ =~= old(out)@ + seq![
            byte_of(w, 0),
            byte_of(w, 1),
            byte_of(w, 2),
            byte_of(w, 3),
        ]);
    }
}

/// Appends the 32 little-endian bytes of a chaining value to `out`.
pub fn push_cv_bytes(out: &mut Vec<u8>, cv: &[u32; 8])
    ensures
        final(out)@ == old(out)@ + bytes_of_words(cv@),
{
    let mut i: usize = 0;
    while i < 8
        invariant
            i <= 8,
            out@ == old(out)@ + bytes_of_words(cv@).take(4 * i),
        decreases 8 - i,
    {
        push_word_bytes(out, cv[i]);
        proof {
            assert forall|k: int| 0 <= k < 4 implies bytes_of_words(cv@)[4 * i + k] == byte_of(
                cv@[i as int],
                k,
            ) by {
                assert((4 * i + k) / 4 == i as int && (4 * i + k) % 4 == k) by (nonlinear_arith)
                    requires
                        0 <= k < 4,
                        0 <= i <= 8,
                ;
            }
            assert(bytes_of_words(cv@).take(4 * (i + 1) as int) =~= bytes_of_words(cv@).take(
                4 * i as int,
            ) + seq![
                byte_of(cv@[i as int], 0),
                byte_of(cv@[i as int], 1),
                byte_of(cv@[i as int], 2),
                byte_of(cv@[i as int], 3),
            ]);
        }
        i = i + 1;
    }
    proof {
        assert(bytes_of_words(cv@).take(32) =~= bytes_of_words(cv@));
    }
}

} // verus!
