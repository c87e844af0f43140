//! CRC-64/GO-ISO reference computation over a fixed number of 64-bit words.
//!
//! The generator polynomial is `x^64 + x^4 + x^3 + x + 1` (normal form `0x1b`). Input and output
//! are reflected, so the polynomial enters the register bit-reversed and message bits are absorbed
//! least-significant first.
use vstd::prelude::*;

verus! {

/// The CRC-64/GO-ISO generator polynomial, in reflected form.
pub const POLY_REFLECTED: u64 = 0xd800000000000000u64;

/// The register is preset to all ones before absorbing the message.
pub const INIT: u64 = 0xffffffffffffffffu64;

/// The final register is XORed with all ones before being returned.
pub const XOR_OUT: u64 = 0xffffffffffffffffu64;

/// The number of 64-bit input words the CRC circuit consumes.
pub const N_INPUT_WORDS: usize = 4;

/// One step of the reflected bitwise CRC: combine the register's low bit with the message bit,
/// shift the register right by one, and mix in the polynomial when the combined bit is set.
pub open spec fn absorb_bit(reg: u64, bit: u64) -> u64 {
    if (reg ^ bit) & 1 == 1 {
        (reg >> 1u64) ^ POLY_REFLECTED
    } else {
        reg >> 1u64
    }
}

/// Message bit `i` of `word` (least significant first).
pub open spec fn word_bit(word: u64, i: nat) -> u64 {
    (word >> (i as u64)) & 1
}

/// The register after absorbing bits `0..n` of `word`, starting from `reg`.
pub open spec fn absorb_bits(reg: u64, word: u64, n: nat) -> u64
    decreases n,
{
    if n == 0 {
        reg
    } else {
        absorb_bit(absorb_bits(reg, word, (n - 1) as nat), word_bit(word, (n - 1) as nat))
    }
}

/// The register after absorbing all 64 bits of every word of `words`, in index order.
pub open spec fn absorb_words(reg: u64, words: Seq<u64>) -> u64
    decreases words.len(),
{
    if words.len() == 0 {
        reg
    } else {
        absorb_bits(absorb_words(reg, words.drop_last()), words.last(), 64)
    }
}

/// CRC-64/GO-ISO of a word sequence: preset, absorb every bit, then apply the output XOR.
pub open spec fn spec_crc64_iso(words: Seq<u64>) -> u64 {
    absorb_words(INIT, words) ^ XOR_OUT
}

/// The branch-free form of one CRC step, as a circuit computes it from word operations only:
/// the combined low bit is broadcast to a full mask by shifting it to bit 63 and arithmetic-
/// shifting it back, and the mask selects the polynomial.
pub open spec fn branch_free_step(reg: u64, shifted_word: u64) -> u64 {
    let mixed = reg ^ shifted_word;
    let to_msb = mixed << 63u64;
    let mask = ((to_msb as i64) >> 63u64) as u64;
    (reg >> 1u64) ^ (mask & POLY_REFLECTED)
}

/// The branch-free step, which reads the message word shifted by `i` with its higher bits left in
/// place, equals the bitwise step on message bit `i`: the word-operation form of the CRC and the
/// bitwise loop agree bit for bit.
pub proof fn lemma_branch_free_step_matches(reg: u64, word: u64, i: u64)
    requires
        i < 64,
    ensures
        branch_free_step(reg, word >> i) == absorb_bit(reg, word_bit(word, i as nat)),
{
    let s = word >> i;
    assert(word_bit(word, i as nat) == s & 1);
    assert(((reg ^ s) & 1 == 1) ==> ((((((reg ^ s) << 63u64) as i64) >> 63u64) as u64) & 0xd800000000000000u64) == 0xd800000000000000u64) by (bit_vector);
    assert(((reg ^ s) & 1 != 1) ==> ((((((reg ^ s) << 63u64) as i64) >> 63u64) as u64) & 0xd800000000000000u64) == 0u64) by (bit_vector);
    assert((reg ^ (s & 1)) & 1 == (reg ^ s) & 1) by (bit_vector);
    assert(((reg >> 1u64) ^ 0u64) == reg >> 1u64) by (bit_vector);
}

/// The word-by-word XOR of two equally long word sequences.
pub open spec fn xor_words(a: Seq<u64>, b: Seq<u64>) -> Seq<u64> {
    Seq::new(a.len(), |i: int| a[i] ^ b[i])
}

/// One bitwise step is linear over GF(2) in the register and the message bit together.
proof fn lemma_absorb_bit_linear(r1: u64, r2: u64, b1: u64, b2: u64)
    requires
        b1 <= 1,
        b2 <= 1,
    ensures
        absorb_bit(r1 ^ r2, b1 ^ b2) == absorb_bit(r1, b1) ^ absorb_bit(r2, b2),
{
    assert(((((r1 ^ r2) ^ (b1 ^ b2)) & 1 == 1) ==> (((r1 ^ r2) >> 1u64) ^ 0xd800000000000000u64)
        == (if (r1 ^ b1) & 1 == 1 {
        (r1 >> 1u64) ^ 0xd800000000000000u64
    } else {
        r1 >> 1u64
    }) ^ (if (r2 ^ b2) & 1 == 1 {
        (r2 >> 1u64) ^ 0xd800000000000000u64
    } else {
        r2 >> 1u64
    })) && ((((r1 ^ r2) ^ (b1 ^ b2)) & 1 != 1) ==> ((r1 ^ r2) >> 1u64) == (if (r1 ^ b1) & 1
        == 1 {
        (r1 >> 1u64) ^ 0xd800000000000000u64
    } else {
        r1 >> 1u64
    }) ^ (if (r2 ^ b2) & 1 == 1 {
        (r2 >> 1u64) ^ 0xd800000000000000u64
    } else {
        r2 >> 1u64
    }))) by (bit_vector);
}

/// Absorbing the bits of a word is linear over GF(2) in the register and the word together.
proof fn lemma_absorb_bits_linear(r1: u64, r2: u64, w1: u64, w2: u64, n: nat)
    requires
        n <= 64,
    ensures
        absorb_bits(r1 ^ r2, w1 ^ w2, n) == absorb_bits(r1, w1, n) ^ absorb_bits(r2, w2, n),
    decreases n,
{
    if n > 0 {
        let m = (n - 1) as nat;
        lemma_absorb_bits_linear(r1, r2, w1, w2, m);
        let i = m as u64;
        assert(word_bit(w1 ^ w2, m) == word_bit(w1, m) ^ word_bit(w2, m)) by {
            assert(((w1 ^ w2) >> i) & 1 == ((w1 >> i) & 1) ^ ((w2 >> i) & 1)) by (bit_vector);
        }
        assert(word_bit(w1, m) <= 1 && word_bit(w2, m) <= 1) by {
            assert((w1 >> i) & 1 <= 1 && (w2 >> i) & 1 <= 1) by (bit_vector);
        }
        lemma_absorb_bit_linear(
            absorb_bits(r1, w1, m),
            absorb_bits(r2, w2, m),
            word_bit(w1, m),
            word_bit(w2, m),
        );
    }
}

/// Absorbing a word sequence is linear over GF(2) in the register and the words together.
proof fn lemma_absorb_words_linear(r1: u64, r2: u64, a: Seq<u64>, b: Seq<u64>)
    requires
        a.len() == b.len(),
    ensures
        absorb_words(r1 ^ r2, xor_words(a, b)) == absorb_words(r1, a) ^ absorb_words(r2, b),
    decreases a.len(),
{
    if a.len() > 0 {
        lemma_absorb_words_linear(r1, r2, a.drop_last(), b.drop_last());
        assert(xor_words(a, b).drop_last() =~= xor_words(a.drop_last(), b.drop_last()));
        lemma_absorb_bits_linear(
            absorb_words(r1, a.drop_last()),
            absorb_words(r2, b.drop_last()),
            a.last(),
            b.last(),
            64,
        );
    }
}

/// The checksum is GF(2)-affine: for three equally long messages, the checksum of their
/// word-by-word XOR is the XOR of their three checksums.
pub proof fn lemma_crc64_xor_affine(a: Seq<u64>, b: Seq<u64>, c: Seq<u64>)
    requires
        a.len() == b.len(),
        b.len() == c.len(),
    ensures
        spec_crc64_iso(xor_words(xor_words(a, b), c)) == spec_crc64_iso(a) ^ spec_crc64_iso(b)
            ^ spec_crc64_iso(c),
{
    lemma_absorb_words_linear(INIT, INIT, a, b);
    lemma_absorb_words_linear(INIT ^ INIT, INIT, xor_words(a, b), c);
    let ra = absorb_words(INIT, a);
    let rb = absorb_words(INIT, b);
    let rc = absorb_words(INIT, c);
    assert((0xffffffffffffffffu64 ^ 0xffffffffffffffffu64) ^ 0xffffffffffffffffu64
        == 0xffffffffffffffffu64) by (bit_vector);
    assert(((ra ^ rb) ^ rc) ^ 0xffffffffffffffffu64 == ((ra ^ 0xffffffffffffffffu64) ^ (rb
        ^ 0xffffffffffffffffu64)) ^ (rc ^ 0xffffffffffffffffu64)) by (bit_vector);
}

/// Absorbing a zero word leaves a zero register at zero and a nonzero register nonzero.
proof fn lemma_absorb_zero_word(reg: u64, n: nat)
    requires
        n <= 64,
    ensures
        reg == 0 ==> absorb_bits(reg, 0, n) == 0,
        reg != 0 ==> absorb_bits(reg, 0, n) != 0,
    decreases n,
{
    if n > 0 {
        let m = (n - 1) as nat;
        lemma_absorb_zero_word(reg, m);
        let s = absorb_bits(reg, 0, m);
        let i = m as u64;
        assert((0u64 >> i) & 1 == 0) by (bit_vector);
        assert(absorb_bit(0, 0) == 0) by (bit_vector);
        assert(s != 0 ==> absorb_bit(s, 0) != 0) by (bit_vector);
    }
}

/// From a zero register, absorbing a word with the single bit `b` set gives zero before bit `b`
/// is reached and a nonzero register from then on.
proof fn lemma_absorb_single_bit_word(b: u64, n: nat)
    requires
        b < 64,
        n <= 64,
    ensures
        n <= b ==> absorb_bits(0, 1u64 << b, n) == 0,
        n > b ==> absorb_bits(0, 1u64 << b, n) != 0,
    decreases n,
{
    if n > 0 {
        let m = (n - 1) as nat;
        lemma_absorb_single_bit_word(b, m);
        let s = absorb_bits(0, 1u64 << b, m);
        let i = m as u64;
        assert(((1u64 << b) >> i) & 1 == (if i == b {
            1u64
        } else {
            0u64
        })) by (bit_vector)
            requires
                b < 64,
                i < 64,
        ;
        assert(absorb_bit(0, 0) == 0) by (bit_vector);
        assert(absorb_bit(0, 1) != 0) by (bit_vector);
        assert(s != 0 ==> absorb_bit(s, 0) != 0) by (bit_vector);
    }
}

/// From a zero register, absorbing words that are all zero but for the single bit `b` of word
/// `k` gives zero before word `k` and a nonzero register from word `k` on.
proof fn lemma_absorb_single_bit_words(e: Seq<u64>, k: int, b: u64, m: nat)
    requires
        0 <= k < e.len(),
        m <= e.len(),
        b < 64,
        e[k] == 1u64 << b,
        forall|j: int| 0 <= j < e.len() && j != k ==> e[j] == 0,
    ensures
        m <= k ==> absorb_words(0, e.take(m as int)) == 0,
        m > k ==> absorb_words(0, e.take(m as int)) != 0,
    decreases m,
{
    if m > 0 {
        let p = (m - 1) as nat;
        lemma_absorb_single_bit_words(e, k, b, p);
        assert(e.take(m as int).drop_last() =~= e.take(p as int));
        let s = absorb_words(0, e.take(p as int));
        if p == k {
            lemma_absorb_single_bit_word(b, 64);
        } else {
            lemma_absorb_zero_word(s, 64);
        }
    }
}

/// Every single-bit change of the message changes the checksum: the generator polynomial divides
/// no monomial, so the checksums of two messages that differ in one bit differ.
pub proof fn lemma_crc64_single_bit_change(w1: Seq<u64>, w2: Seq<u64>, k: int, b: u64)
    requires
        w1.len() == w2.len(),
        0 <= k < w1.len(),
        b < 64,
        w2[k] == w1[k] ^ (1u64 << b),
        forall|j: int| 0 <= j < w1.len() && j != k ==> w2[j] == w1[j],
    ensures
        spec_crc64_iso(w1) != spec_crc64_iso(w2),
{
    let e = Seq::new(w1.len(), |j: int| if j == k { 1u64 << b } else { 0u64 });
    assert(xor_words(w1, e) =~= w2) by {
        assert forall|j: int| 0 <= j < w1.len() implies xor_words(w1, e)[j] == w2[j] by {
            let x = w1[j];
            assert(x ^ 0u64 == x) by (bit_vector);
        }
    }
    assert(INIT ^ 0 == INIT) by (bit_vector);
    lemma_absorb_words_linear(INIT, 0, w1, e);
    lemma_absorb_single_bit_words(e, k, b, e.len());
    assert(e.take(e.len() as int) =~= e);
    let r1 = absorb_words(INIT, w1);
    let d = absorb_words(0, e);
    assert(d != 0 ==> (r1 ^ 0xffffffffffffffffu64) != ((r1 ^ d) ^ 0xffffffffffffffffu64))
        by (bit_vector);
}

/// Computes CRC-64/GO-ISO over `words`, absorbing bits least-significant-first.
///
/// Each input word contributes its 64 bits in order from bit 0 up to bit 63, and the words are
/// absorbed in index order.
pub fn crc64_iso_reference(words: &[u64; N_INPUT_WORDS]) -> (crc: u64)
    ensures
        crc == spec_crc64_iso(words@),
{
    let mut crc: u64 = INIT;
    let mut w: usize = 0;
    while w < N_INPUT_WORDS
        invariant
            w <= N_INPUT_WORDS,
            words@.len() == N_INPUT_WORDS,
            crc == absorb_words(INIT, words@.take(w as int)),
        decreases N_INPUT_WORDS - w,
    {
        let word = words[w];
        let ghost start = crc;
        let mut i: u64 = 0;
        while i < 64
            invariant
                i <= 64,
                crc == absorb_bits(start, word, i as nat),
            decreases 64 - i,
        {
            let bit = (word >> i) & 1;
            let mix = (crc ^ bit) & 1;
            let ghost before = crc;
            crc = crc >> 1;
            if mix != 0 {
                crc = crc ^ POLY_REFLECTED;
            }
            assert(mix != 0 <==> (before ^ bit) & 1 == 1) by {
                assert(((before ^ bit) & 1) == 0 || ((before ^ bit) & 1) == 1) by (bit_vector);
            }
            assert(crc == absorb_bit(before, word_bit(word, i as nat)));
            i = i + 1;
        }
        assert(words@.take(w as int + 1).drop_last() =~= words@.take(w as int));
        w = w + 1;
    }
    assert(words@.take(N_INPUT_WORDS as int) =~= words@);
    crc ^ XOR_OUT
}

} // verus!
