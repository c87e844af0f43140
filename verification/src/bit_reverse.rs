//! Bit reversal of integers and the bit-reversal permutation of buffers.
use vstd::arithmetic::div_mod::*;
use vstd::arithmetic::power2::*;
use vstd::prelude::*;

use crate::packed_buffer::{copy_row, PackedBuffer};

verus! {

/// The value of the low `n` bits of `x` written in reverse order: bit `k` of `x` (for `k < n`)
/// lands at position `n - 1 - k`; bits of `x` at positions `n` and above are ignored.
pub open spec fn rev_bits(x: nat, n: nat) -> nat
    decreases n,
{
    if n == 0 {
        0
    } else {
        (x % 2) * pow2((n - 1) as nat) + rev_bits(x / 2, (n - 1) as nat)
    }
}

/// The bit-reversal permutation of a sequence whose length is `2^bits`: the element at index `i`
/// moves to index `rev_bits(i, bits)`.
pub open spec fn bit_reversed<T>(s: Seq<T>, bits: nat) -> Seq<T> {
    Seq::new(s.len(), |j: int| s[rev_bits(j as nat, bits) as int])
}

/// `x % 2^(n+1)` split into its low bit and the remaining `n` bits.
proof fn lemma_mod_pow2_split(x: nat, n: nat)
    ensures
        x % pow2(n + 1) == 2 * ((x / 2) % pow2(n)) + x % 2,
        (x / 2) / pow2(n) == x / pow2(n + 1),
        pow2(n + 1) == pow2(n) * 2,
{
    lemma_pow2_pos(n);
    lemma_pow2_unfold(n + 1);
    lemma_mod_breakdown(x as int, 2, pow2(n) as int);
    lemma_div_denominator(x as int, 2, pow2(n) as int);
}

/// The reversal is below `2^n`.
pub proof fn lemma_rev_bits_bound(x: nat, n: nat)
    ensures
        rev_bits(x, n) < pow2(n),
    decreases n,
{
    if n == 0 {
        lemma2_to64();
    } else {
        lemma_rev_bits_bound(x / 2, (n - 1) as nat);
        lemma_pow2_unfold(n);
        assert((x % 2) * pow2((n - 1) as nat) <= pow2((n - 1) as nat)) by {
            if x % 2 == 0 {
                assert((x % 2) * pow2((n - 1) as nat) == 0);
            } else {
                assert((x % 2) * pow2((n - 1) as nat) == pow2((n - 1) as nat));
            }
        }
    }
}

/// The reversal reads only the low `n` bits of its argument.
pub proof fn lemma_rev_bits_low(x: nat, n: nat)
    ensures
        rev_bits(x % pow2(n), n) == rev_bits(x, n),
    decreases n,
{
    lemma_pow2_pos(n);
    if n == 0 {
        lemma2_to64();
    } else {
        let m = (n - 1) as nat;
        let y = x % pow2(n);
        lemma_mod_pow2_split(x, m);
        // y == 2 * ((x / 2) % 2^m) + x % 2
        assert(y % 2 == x % 2);
        assert(y / 2 == (x / 2) % pow2(m));
        lemma_rev_bits_low(x / 2, m);
    }
}

/// Peeling the highest of `n + 1` bits: it becomes the lowest bit of the reversal.
pub proof fn lemma_rev_bits_high(x: nat, n: nat)
    ensures
        rev_bits(x, n + 1) == 2 * rev_bits(x % pow2(n), n) + (x / pow2(n)) % 2,
    decreases n,
{
    lemma_pow2_pos(n);
    if n == 0 {
        lemma2_to64();
        assert(x % 1 == 0);
        assert(x / 1 == x);
        assert(rev_bits(x / 2, 0) == 0);
        assert(rev_bits(x % 1, 0) == 0);
        assert((x % 2) * 1 == x % 2);
        assert(rev_bits(x, 1) == (x % 2) * pow2(0) + rev_bits(x / 2, 0));
    } else {
        let m = (n - 1) as nat;
        let q = x / 2;
        lemma_rev_bits_high(q, m);
        lemma_mod_pow2_split(x, m);
        lemma_pow2_unfold(n);
        let y = x % pow2(n);
        assert(y % 2 == x % 2);
        assert(y / 2 == q % pow2(m));
        assert(q / pow2(m) == x / pow2(n));
        assert(rev_bits(y, n) == (x % 2) * pow2(m) + rev_bits(q % pow2(m), m));
        assert(rev_bits(x, n + 1) == (x % 2) * pow2(n) + rev_bits(q, n));
        let b = x % 2;
        assert(b == 0 || b == 1);
        let pn = pow2(n);
        let pm = pow2(m);
        assert(b * pn == 2 * (b * pm)) by (nonlinear_arith)
            requires
                pn == 2 * pm,
        ;
    }
}

/// Reversing the low `n` bits twice gives back the low `n` bits.
pub proof fn lemma_rev_bits_involution(x: nat, n: nat)
    ensures
        rev_bits(rev_bits(x, n), n) == x % pow2(n),
    decreases n,
{
    lemma_pow2_pos(n);
    if n == 0 {
        lemma2_to64();
    } else {
        let m = (n - 1) as nat;
        let q = x / 2;
        let b = x % 2;
        assert(b == 0 || b == 1);
        let r = rev_bits(q, m);
        let y = rev_bits(x, n);
        lemma_rev_bits_bound(q, m);
        lemma_pow2_pos(m);
        assert(y == b * pow2(m) + r);
        assert(y % pow2(m) == r && y / pow2(m) == b) by {
            if b == 0 {
                assert(y == r);
                lemma_small_mod(r, pow2(m));
                vstd::arithmetic::div_mod::lemma_basic_div(r as int, pow2(m) as int);
            } else {
                assert(b * pow2(m) == pow2(m));
                assert(y == pow2(m) + r);
                lemma_fundamental_div_mod_converse(y as int, pow2(m) as int, 1, r as int);
            }
        }
        lemma_rev_bits_high(y, m);
        lemma_rev_bits_involution(q, m);
        lemma_mod_pow2_split(x, m);
    }
}

/// Reverses the low `bits` bits of an unsigned integer; the result has no bits at or above `bits`.
pub fn reverse_bits(x: usize, bits: u32) -> (r: usize)
    requires
        bits <= usize::BITS,
    ensures
        r as nat == rev_bits(x as nat, bits as nat),
{
    let mut r: usize = 0;
    let mut t: usize = x;
    let mut k: u32 = 0;
    proof {
        lemma2_to64();
    }
    while k < bits
        invariant
            k <= bits <= usize::BITS,
            t as nat == x as nat / pow2(k as nat),
            r as nat == rev_bits(x as nat, k as nat),
        decreases bits - k,
    {
        proof {
            lemma_pow2_pos(k as nat);
            lemma_rev_bits_high(x as nat, k as nat);
            lemma_rev_bits_low(x as nat, k as nat);
            lemma_rev_bits_bound(x as nat, (k + 1) as nat);
            lemma_div_denominator(x as int, pow2(k as nat) as int, 2);
            lemma_pow2_unfold((k + 1) as nat);
            assert(pow2((k + 1) as nat) <= pow2(usize::BITS as nat)) by {
                if k + 1 < usize::BITS {
                    lemma_pow2_strictly_increases((k + 1) as nat, usize::BITS as nat);
                }
            }
            assert(pow2(usize::BITS as nat) == usize::MAX + 1) by {
                lemma2_to64();
                lemma2_to64_rest();
            }
        }
        r = r * 2 + t % 2;
        t = t / 2;
        k = k + 1;
    }
    r
}

/// Exchanges two elements of a slice.
#[verifier::external_body]
fn slice_swap<T>(buffer: &mut [T], a: usize, b: usize)
    requires
        a < old(buffer)@.len(),
        b < old(buffer)@.len(),
    ensures
        final(buffer)@ == old(buffer)@.update(a as int, old(buffer)@[b as int]).update(
            b as int,
            old(buffer)@[a as int],
        ),
{
    buffer.swap(a, b);
}

/// The base-2 logarithm of a power of two.
pub fn log2_strict(n: usize) -> (k: u32)
    requires
        exists|e: nat| pow2(e) == n,
    ensures
        pow2(k as nat) == n,
        k < usize::BITS,
{
    let ghost e = choose|e: nat| pow2(e) == n;
    let mut p: usize = 1;
    let mut k: u32 = 0;
    proof {
        lemma2_to64();
        lemma2_to64_rest();
        lemma_pow2_pos(e);
        if e >= usize::BITS {
            if e > usize::BITS {
                lemma_pow2_strictly_increases(usize::BITS as nat, e);
            }
        }
    }
    while p < n
        invariant
            p as nat == pow2(k as nat),
            p <= n,
            pow2(e) == n,
            e < usize::BITS,
            k <= e,
        decreases e - k,
    {
        proof {
            if k == e {
                assert(false);
            }
            lemma_pow2_unfold((k + 1) as nat);
            if k + 1 < e {
                lemma_pow2_strictly_increases((k + 1) as nat, e);
            }
        }
        p = p * 2;
        k = k + 1;
    }
    proof {
        if k < e {
            lemma_pow2_strictly_increases(k as nat, e);
        }
    }
    k
}

/// Reversing the low `n` bits of zero gives zero.
proof fn lemma_rev_bits_zero(n: nat)
    ensures
        rev_bits(0, n) == 0,
    decreases n,
{
    if n > 0 {
        lemma_rev_bits_zero((n - 1) as nat);
        assert(0nat / 2 == 0 && 0nat % 2 == 0);
        assert(rev_bits(0, n) == 0 * pow2((n - 1) as nat) + rev_bits(0, (n - 1) as nat));
    }
}

/// Reversing the bits of a number made of `b` high bits `hi` above `a` low bits `lo`: the reversed
/// low part becomes the high part and the reversed high part the low part.
pub proof fn lemma_rev_bits_concat(hi: nat, lo: nat, a: nat, b: nat)
    requires
        lo < pow2(a),
    ensures
        rev_bits(hi * pow2(a) + lo, a + b) == rev_bits(lo, a) * pow2(b) + rev_bits(hi, b),
    decreases a,
{
    lemma_pow2_pos(a);
    lemma_pow2_pos(b);
    if a == 0 {
        lemma2_to64();
        assert(pow2(a) == 1);
        assert(lo == 0);
        assert(hi * pow2(a) + lo == hi) by (nonlinear_arith)
            requires
                pow2(a) == 1,
                lo == 0,
        ;
        assert(rev_bits(lo, 0) == 0);
        let rl = rev_bits(lo, a);
        assert(rl == 0);
        let pb = pow2(b);
        assert(rl * pb == 0) by (nonlinear_arith)
            requires
                rl == 0,
        ;
    } else {
        let a1 = (a - 1) as nat;
        let pa1 = pow2(a1);
        let pb = pow2(b);
        lemma_pow2_pos(a1);
        lemma_pow2_unfold(a);
        let x = hi * pow2(a) + lo;
        let h = hi * pa1 + lo / 2;
        assert(x == 2 * h + lo % 2) by (nonlinear_arith)
            requires
                x == hi * pow2(a) + lo,
                pow2(a) == 2 * pa1,
                h == hi * pa1 + lo / 2,
                lo == 2 * (lo / 2) + lo % 2,
        ;
        lemma_fundamental_div_mod_converse(x as int, 2, h as int, (lo % 2) as int);
        assert(lo / 2 < pa1);
        lemma_rev_bits_concat(hi, lo / 2, a1, b);
        assert(x / 2 == hi * pa1 + lo / 2);
        assert((a + b - 1) as nat == a1 + b);
        assert(rev_bits(x, a + b) == (x % 2) * pow2(a1 + b) + rev_bits(x / 2, a1 + b));
        assert(rev_bits(lo, a) == (lo % 2) * pa1 + rev_bits(lo / 2, a1));
        lemma_pow2_adds(a1, b);
        let r = rev_bits(lo / 2, a1);
        let bit = lo % 2;
        assert((bit * pa1 + r) * pb == bit * (pa1 * pb) + r * pb) by (nonlinear_arith);
    }
}

/// Applies the bit-reversal permutation to the `2^bits` elements of `buffer` that start at
/// `start`: the element at `start + i` moves to `start + reverse_bits(i, bits)`, and the elements
/// outside that range stay where they are.
fn bit_reverse_range<T>(buffer: &mut [T], start: usize, bits: u32)
    requires
        bits < usize::BITS,
        start + pow2(bits as nat) <= old(buffer)@.len(),
    ensures
        final(buffer)@.len() == old(buffer)@.len(),
        forall|j: int|
            0 <= j < old(buffer)@.len() ==> #[trigger] final(buffer)@[j] == (if start <= j < start
                + pow2(bits as nat) {
                old(buffer)@[start + rev_bits((j - start) as nat, bits as nat)]
            } else {
                old(buffer)@[j]
            }),
{
    let ghost orig = buffer@;
    let ghost nb = bits as nat;
    let total = buffer.len();
    proof {
        vstd::bits::lemma_usize_pow2_no_overflow(nb);
        vstd::bits::lemma_usize_shl_is_mul(1, bits as usize);
    }
    let n = 1usize << bits;
    let mut i: usize = 0;
    while i < n
        invariant
            buffer@.len() == orig.len() == total,
            n == pow2(nb),
            bits as nat == nb,
            bits < usize::BITS,
            start + n <= orig.len(),
            i <= n,
            forall|j: int|
                0 <= j < orig.len() ==> #[trigger] buffer@[j] == (if start <= j < start + n && (j
                    - start < i || rev_bits((j - start) as nat, nb) < i) {
                    orig[start + rev_bits((j - start) as nat, nb)]
                } else {
                    orig[j]
                }),
        decreases n - i,
    {
        let i_rev = reverse_bits(i, bits);
        proof {
            lemma_rev_bits_bound(i as nat, nb);
            lemma_rev_bits_involution(i as nat, nb);
            lemma_small_mod(i as nat, pow2(nb));
        }
        if i < i_rev {
            slice_swap(buffer, start + i, start + i_rev);
        }
        proof {
            assert forall|j: int| 0 <= j < orig.len() implies #[trigger] buffer@[j] == (if start
                <= j < start + n && (j - start < i + 1 || rev_bits((j - start) as nat, nb) < i
                + 1) {
                orig[start + rev_bits((j - start) as nat, nb)]
            } else {
                orig[j]
            }) by {
                if start <= j < start + n {
                    lemma_rev_bits_involution((j - start) as nat, nb);
                    lemma_small_mod((j - start) as nat, pow2(nb));
                    lemma_rev_bits_bound((j - start) as nat, nb);
                }
            }
        }
        i = i + 1;
    }
}

/// Applies the bit-reversal permutation to a buffer whose length is a power of two: the element at
/// index `i` moves to index `reverse_bits(i, log2(length))`.
pub fn bit_reverse_indices<T>(buffer: &mut [T])
    requires
        exists|e: nat| pow2(e) == old(buffer)@.len(),
    ensures
        exists|bits: nat|
            pow2(bits) == old(buffer)@.len() && final(buffer)@ == #[trigger] bit_reversed(
                old(buffer)@,
                bits,
            ),
{
    let ghost orig = buffer@;
    let bits = log2_strict(buffer.len());
    bit_reverse_range(buffer, 0, bits);
    proof {
        let nb = bits as nat;
        assert(buffer@ =~= bit_reversed(orig, nb)) by {
            assert forall|j: int| 0 <= j < orig.len() implies buffer@[j] == bit_reversed(
                orig,
                nb,
            )[j] by {
                lemma_rev_bits_bound(j as nat, nb);
            }
        }
    }
}

/// Transposes a square matrix of `2^log_n` rows of `2^log_n` scalars each: lane `k` of row `j`
/// becomes lane `j` of row `k`.
fn square_transpose<T: Copy>(log_n: usize, elems: &mut Vec<Vec<T>>)
    requires
        log_n < usize::BITS,
        old(elems)@.len() == pow2(log_n as nat),
        forall|j: int|
            0 <= j < old(elems)@.len() ==> #[trigger] old(elems)@[j]@.len() == pow2(log_n as nat),
    ensures
        final(elems)@.len() == old(elems)@.len(),
        forall|j: int|
            0 <= j < old(elems)@.len() ==> #[trigger] final(elems)@[j]@.len() == pow2(log_n as nat),
        forall|j: int, k: int|
            0 <= j < old(elems)@.len() && 0 <= k < old(elems)@.len()
                ==> #[trigger] final(elems)@[j]@[k] == old(elems)@[k]@[j],
{
    proof {
        vstd::bits::lemma_usize_pow2_no_overflow(log_n as nat);
        vstd::bits::lemma_usize_shl_is_mul(1, log_n);
    }
    let n = 1usize << log_n;
    let mut out: Vec<Vec<T>> = Vec::new();
    let mut j: usize = 0;
    while j < n
        invariant
            n == pow2(log_n as nat),
            elems@.len() == n,
            forall|r: int| 0 <= r < n ==> #[trigger] elems@[r]@.len() == n,
            j <= n,
            out@.len() == j,
            forall|r: int| 0 <= r < j ==> #[trigger] out@[r]@.len() == n,
            forall|r: int, k: int| 0 <= r < j && 0 <= k < n ==> #[trigger] out@[r]@[k] == elems@[k]@[r],
        decreases n - j,
    {
        let mut row: Vec<T> = Vec::new();
        let mut k: usize = 0;
        while k < n
            invariant
                n == pow2(log_n as nat),
                elems@.len() == n,
                forall|r: int| 0 <= r < n ==> #[trigger] elems@[r]@.len() == n,
                j < n,
                k <= n,
                row@.len() == k,
                forall|c: int| 0 <= c < k ==> #[trigger] row@[c] == elems@[c]@[j as int],
            decreases n - k,
        {
            row.push(elems[k][j]);
            k = k + 1;
        }
        out.push(row);
        j = j + 1;
    }
    *elems = out;
}

/// Applies the bit-reversal permutation to the scalars of a packed buffer by swapping scalars one
/// pair at a time: scalar `i` moves to index `reverse_bits(i, log_len)`.
pub fn bit_reverse_packed_naive<T: Copy>(buffer: &mut PackedBuffer<T>)
    requires
        old(buffer).wf(),
    ensures
        final(buffer).wf(),
        final(buffer).log_width == old(buffer).log_width,
        final(buffer).log_len == old(buffer).log_len,
        final(buffer).scalars() == bit_reversed(old(buffer).scalars(), old(buffer).log_len as nat),
        old(buffer).same_padding(*final(buffer)),
{
    let ghost orig_buf = *buffer;
    let ghost orig = buffer.scalars();
    let ghost log_width = buffer.log_width;
    let ghost nb = buffer.log_len as nat;
    let bits = buffer.log_len as u32;
    let len = buffer.len();
    let mut i: usize = 0;
    while i < len
        invariant
            buffer.wf(),
            buffer.log_width == log_width,
            buffer.log_len as nat == nb,
            bits as nat == nb,
            bits < usize::BITS,
            len == pow2(nb),
            orig.len() == len,
            orig_buf.same_padding(*buffer),
            orig_buf.wf(),
            orig_buf.log_width == log_width,
            orig_buf.log_len as nat == nb,
            i <= len,
            forall|j: int|
                0 <= j < len ==> #[trigger] buffer.scalars()[j] == (if j < i || rev_bits(
                    j as nat,
                    nb,
                ) < i {
                    orig[rev_bits(j as nat, nb) as int]
                } else {
                    orig[j]
                }),
        decreases len - i,
    {
        let i_rev = reverse_bits(i, bits);
        proof {
            lemma_rev_bits_bound(i as nat, nb);
            lemma_rev_bits_involution(i as nat, nb);
            lemma_small_mod(i as nat, pow2(nb));
        }
        if i < i_rev {
            let tmp = buffer.get(i);
            let other = buffer.get(i_rev);
            buffer.set(i, other);
            buffer.set(i_rev, tmp);
        }
        proof {
            assert forall|j: int| 0 <= j < len implies #[trigger] buffer.scalars()[j] == (if j < i
                + 1 || rev_bits(j as nat, nb) < i + 1 {
                orig[rev_bits(j as nat, nb) as int]
            } else {
                orig[j]
            }) by {
                lemma_rev_bits_involution(j as nat, nb);
                lemma_small_mod(j as nat, pow2(nb));
                lemma_rev_bits_bound(j as nat, nb);
            }
        }
        i = i + 1;
    }
    proof {
        assert(buffer.scalars() =~= bit_reversed(orig, nb)) by {
            assert forall|j: int| 0 <= j < len implies buffer.scalars()[j] == bit_reversed(
                orig,
                nb,
            )[j] by {
                lemma_rev_bits_bound(j as nat, nb);
            }
        }
    }
}

/// The packed index `a * 2^l + i` of offset `i` in chunk `a`, when there are `2^w` chunks of `2^l`
/// packed elements.
proof fn lemma_chunk_index(a: int, i: int, w: nat, l: nat)
    requires
        0 <= a < pow2(w),
        0 <= i < pow2(l),
    ensures
        0 <= a * pow2(l) + i < pow2(w) * pow2(l),
        (a * pow2(l) + i) / (pow2(l) as int) == a,
        (a * pow2(l) + i) % (pow2(l) as int) == i,
{
    let c = pow2(l) as int;
    let wd = pow2(w) as int;
    lemma_pow2_pos(l);
    assert(0 <= a * c + i < wd * c) by (nonlinear_arith)
        requires
            0 <= a < wd,
            0 <= i < c,
    ;
    lemma_fundamental_div_mod_converse(a * c + i, c, a, i);
}

/// A packed index below `2^w * 2^l` splits into a chunk below `2^w` and an offset below `2^l`.
proof fn lemma_chunk_split(p: int, w: nat, l: nat)
    requires
        0 <= p < pow2(w) * pow2(l),
    ensures
        0 <= p / (pow2(l) as int) < pow2(w),
        0 <= p % (pow2(l) as int) < pow2(l),
        p == (p / (pow2(l) as int)) * pow2(l) + p % (pow2(l) as int),
{
    let c = pow2(l) as int;
    let wd = pow2(w) as int;
    lemma_pow2_pos(l);
    lemma_fundamental_div_mod(p, c);
    lemma_mod_bound(p, c);
    lemma_div_pos_is_pos(p, c);
    let q = p / c;
    let r = p % c;
    assert(q < wd && p == q * c + r) by (nonlinear_arith)
        requires
            p == c * q + r,
            0 <= r,
            p < wd * c,
            c > 0,
    ;
}

/// The `w + l` bit reversal of a number below `2^w` is its `w` bit reversal shifted up by `l`.
proof fn lemma_rev_bits_shifted(j: nat, w: nat, l: nat)
    requires
        j < pow2(w),
    ensures
        rev_bits(j, w + l) == rev_bits(j, w) * pow2(l),
{
    lemma_rev_bits_concat(0, j, w, l);
    lemma_rev_bits_zero(l);
    assert(0 * pow2(w) + j == j);
}

/// The reversal of `log_len = 2w + l` bits of scalar index `x`, in terms of its lane `k`, the
/// offset `m` of its packed element within its chunk, and that chunk `c`: the reversed lane picks
/// the chunk, the reversed offset the offset, and the reversed chunk the lane.
proof fn lemma_rev_bits_packed(x: nat, w: nat, l: nat)
    requires
        x < pow2(w) * pow2(l) * pow2(w),
    ensures
        ({
            let wd = pow2(w) as int;
            let c = pow2(l) as int;
            let p = x as int / wd;
            let k = x as int % wd;
            rev_bits(x, w + (l + w)) == (rev_bits(k as nat, w) * c + rev_bits(
                (p % c) as nat,
                l,
            )) * wd + rev_bits((p / c) as nat, w)
        }),
{
    let wd = pow2(w) as int;
    let c = pow2(l) as int;
    lemma_pow2_pos(w);
    lemma_pow2_pos(l);
    let p = x as int / wd;
    let k = x as int % wd;
    lemma_fundamental_div_mod(x as int, wd);
    lemma_mod_bound(x as int, wd);
    lemma_div_pos_is_pos(x as int, wd);
    assert(p < wd * c && x == p * wd + k) by (nonlinear_arith)
        requires
            x == wd * p + k,
            0 <= k,
            x < wd * c * wd,
            wd > 0,
    ;
    lemma_chunk_split(p, w, l);
    let cc = p / c;
    let m = p % c;
    lemma_rev_bits_concat(p as nat, k as nat, w, l + w);
    lemma_rev_bits_concat(cc as nat, m as nat, l, w);
    lemma_pow2_adds(l, w);
    let rk = rev_bits(k as nat, w) as int;
    let rm = rev_bits(m as nat, l) as int;
    assert(rk * (c * wd) + (rm * wd + rev_bits(cc as nat, w)) == (rk * c + rm) * wd + rev_bits(
        cc as nat,
        w,
    )) by (nonlinear_arith);
}

/// Lane `k` of packed element `p` once the transposition step has handled every offset below
/// `done` within the chunks of `chunk` packed elements: a handled element takes, from the element
/// at offset `p % chunk` of chunk `rev(k)`, the lane `rev(p / chunk)`.
spec fn transposed_lane<T>(orig: Seq<Vec<T>>, w: nat, chunk: nat, done: nat, p: int, k: int) -> T {
    if p % (chunk as int) < done {
        orig[rev_bits(k as nat, w) * chunk + p % (chunk as int)]@[rev_bits(
            (p / (chunk as int)) as nat,
            w,
        ) as int]
    } else {
        orig[p]@[k]
    }
}

/// The first phase of the packed permutation: for each offset `i` within a chunk, the `width`
/// packed elements at indices `reverse_bits(j, log_len - log_width) + i` form a square matrix,
/// which is transposed.
fn transpose_strided_blocks<T: Copy>(buffer: &mut PackedBuffer<T>)
    requires
        old(buffer).wf(),
        old(buffer).log_len >= 2 * old(buffer).log_width,
    ensures
        final(buffer).wf(),
        final(buffer).log_width == old(buffer).log_width,
        final(buffer).log_len == old(buffer).log_len,
        forall|p: int, k: int|
            0 <= p < old(buffer).packed@.len() && 0 <= k < old(buffer).width()
                ==> #[trigger] final(buffer).packed@[p]@[k] == transposed_lane(
                old(buffer).packed@,
                old(buffer).log_width as nat,
                pow2((old(buffer).log_len - 2 * old(buffer).log_width) as nat),
                pow2((old(buffer).log_len - 2 * old(buffer).log_width) as nat),
                p,
                k,
            ),
{
    let ghost orig = buffer.packed@;
    let log_width = buffer.log_width;
    let log_len = buffer.log_len;
    let log_chunk = log_len - 2 * log_width;
    let bits = (log_len - log_width) as u32;
    let width = buffer.width_exec();
    let ghost w = log_width as nat;
    let ghost l = log_chunk as nat;
    proof {
        vstd::bits::lemma_usize_pow2_no_overflow(l);
        vstd::bits::lemma_usize_shl_is_mul(1, log_chunk);
        lemma_pow2_adds(w, l);
        lemma_pow2_pos(w);
        lemma_pow2_pos(l);
        vstd::bits::lemma_usize_pow2_no_overflow(w + l);
    }
    let chunk = 1usize << log_chunk;
    let ghost n = orig.len();
    let mut i: usize = 0;
    while i < chunk
        invariant
            buffer.wf(),
            buffer.log_width == log_width,
            buffer.log_len == log_len,
            w == log_width,
            l == log_chunk,
            width == pow2(w),
            chunk == pow2(l),
            bits == w + l,
            bits < usize::BITS,
            n == orig.len(),
            buffer.packed@.len() == n,
            n == pow2(w) * pow2(l),
            n < usize::MAX,
            i <= chunk,
            forall|p: int, k: int|
                0 <= p < n && 0 <= k < width ==> #[trigger] buffer.packed@[p]@[k]
                    == transposed_lane(orig, w, chunk as nat, i as nat, p, k),
        decreases chunk - i,
    {
        let ghost before = buffer.packed@;
        let mut tmp: Vec<Vec<T>> = Vec::new();
        let mut j: usize = 0;
        while j < width
            invariant
                buffer.wf(),
                buffer.packed@ == before,
                width == pow2(w),
                chunk == pow2(l),
                bits == w + l,
                bits < usize::BITS,
                before.len() == pow2(w) * pow2(l),
                before.len() < usize::MAX,
                i < chunk,
                j <= width,
                tmp@.len() == j,
                forall|r: int|
                    0 <= r < j ==> #[trigger] tmp@[r]@ == before[rev_bits(r as nat, w) * chunk
                        + i]@,
            decreases width - j,
        {
            let rj = reverse_bits(j, bits);
            proof {
                lemma_rev_bits_shifted(j as nat, w, l);
                lemma_rev_bits_bound(j as nat, w);
                lemma_chunk_index(rev_bits(j as nat, w) as int, i as int, w, l);
            }
            let idx = rj + i;
            tmp.push(copy_row(&buffer.packed[idx]));
            j = j + 1;
        }
        proof {
            assert forall|r: int| 0 <= r < width implies #[trigger] tmp@[r]@.len() == width by {
                lemma_rev_bits_bound(r as nat, w);
                lemma_chunk_index(rev_bits(r as nat, w) as int, i as int, w, l);
            }
        }
        let ghost gathered = tmp@;
        square_transpose(log_width, &mut tmp);
        let mut j: usize = 0;
        while j < width
            invariant
                buffer.wf(),
                buffer.log_width == log_width,
                buffer.log_len == log_len,
                buffer.packed@.len() == before.len(),
                w == log_width,
                width == pow2(w),
                chunk == pow2(l),
                bits == w + l,
                bits < usize::BITS,
                before.len() == pow2(w) * pow2(l),
                before.len() < usize::MAX,
                forall|p: int| 0 <= p < before.len() ==> #[trigger] before[p]@.len() == width,
                i < chunk,
                j <= width,
                tmp@.len() == width,
                forall|r: int| 0 <= r < width ==> #[trigger] tmp@[r]@.len() == width,
                forall|a: int, k: int|
                    0 <= a < width && 0 <= k < width ==> #[trigger] tmp@[a]@[k] == before[rev_bits(
                        k as nat,
                        w,
                    ) * chunk + i]@[a],
                forall|p: int|
                    0 <= p < before.len() ==> #[trigger] buffer.packed@[p]@ == (if p % (chunk as int)
                        == i && rev_bits((p / (chunk as int)) as nat, w) < j {
                        tmp@[rev_bits((p / (chunk as int)) as nat, w) as int]@
                    } else {
                        before[p]@
                    }),
            decreases width - j,
        {
            let rj = reverse_bits(j, bits);
            proof {
                lemma_rev_bits_shifted(j as nat, w, l);
                lemma_rev_bits_bound(j as nat, w);
                lemma_chunk_index(rev_bits(j as nat, w) as int, i as int, w, l);
            }
            let idx = rj + i;
            let row = copy_row(&tmp[j]);
            buffer.packed.set(idx, row);
            proof {
                let c = chunk as int;
                assert forall|p: int| 0 <= p < before.len() implies #[trigger] buffer.packed@[p]@
                    == (if p % c == i && rev_bits((p / c) as nat, w) < j + 1 {
                    tmp@[rev_bits((p / c) as nat, w) as int]@
                } else {
                    before[p]@
                }) by {
                    lemma_chunk_split(p, w, l);
                    lemma_rev_bits_involution((p / c) as nat, w);
                    lemma_small_mod((p / c) as nat, pow2(w));
                    lemma_rev_bits_involution(j as nat, w);
                    lemma_small_mod(j as nat, pow2(w));
                }
                assert forall|p: int| 0 <= p < before.len() implies #[trigger] buffer.packed@[
                    p
                ]@.len() == width by {
                    lemma_chunk_split(p, w, l);
                    lemma_rev_bits_bound((p / c) as nat, w);
                }
            }
            j = j + 1;
        }
        proof {
            let c = chunk as int;
            assert forall|p: int, k: int| 0 <= p < n && 0 <= k < width implies #[trigger] buffer.packed@[
                p
            ]@[k] == transposed_lane(orig, w, chunk as nat, (i + 1) as nat, p, k) by {
                lemma_chunk_split(p, w, l);
                lemma_rev_bits_bound((p / c) as nat, w);
                lemma_rev_bits_bound(k as nat, w);
                if p % c == i {
                    let a = rev_bits((p / c) as nat, w) as int;
                    let q = rev_bits(k as nat, w) * c + i;
                    lemma_chunk_index(rev_bits(k as nat, w) as int, i as int, w, l);
                    assert(buffer.packed@[p]@[k] == tmp@[a]@[k]);
                    assert(tmp@[a]@[k] == before[q]@[a]);
                    assert(before[q]@[a] == transposed_lane(orig, w, chunk as nat, i as nat, q, a));
                }
            }
        }
        i = i + 1;
    }
}

/// The second phase of the packed permutation: each of the `n_chunks` consecutive chunks of
/// `2^log_chunk` packed elements is bit-reversed on its own.
fn reverse_chunks<T>(packed: &mut Vec<Vec<T>>, n_chunks: usize, log_chunk: usize)
    requires
        log_chunk < usize::BITS,
        old(packed)@.len() == n_chunks * pow2(log_chunk as nat),
    ensures
        final(packed)@.len() == old(packed)@.len(),
        forall|p: int|
            0 <= p < old(packed)@.len() ==> #[trigger] final(packed)@[p] == old(packed)@[(p / (pow2(
                log_chunk as nat,
            ) as int)) * pow2(log_chunk as nat) + rev_bits(
                (p % (pow2(log_chunk as nat) as int)) as nat,
                log_chunk as nat,
            )],
{
    let ghost orig = packed@;
    let ghost l = log_chunk as nat;
    proof {
        vstd::bits::lemma_usize_pow2_no_overflow(l);
        vstd::bits::lemma_usize_shl_is_mul(1, log_chunk);
        lemma_pow2_pos(l);
    }
    let chunk = 1usize << log_chunk;
    let total = packed.len();
    let mut c: usize = 0;
    while c < n_chunks
        invariant
            packed@.len() == orig.len(),
            orig.len() == total,
            orig.len() == n_chunks * chunk,
            chunk == pow2(l),
            l == log_chunk,
            log_chunk < usize::BITS,
            c <= n_chunks,
            forall|p: int|
                0 <= p < orig.len() ==> #[trigger] packed@[p] == (if p / (chunk as int) < c {
                    orig[(p / (chunk as int)) * chunk + rev_bits((p % (chunk as int)) as nat, l)]
                } else {
                    orig[p]
                }),
        decreases n_chunks - c,
    {
        let ghost before = packed@;
        proof {
            assert((c + 1) * chunk <= n_chunks * chunk) by (nonlinear_arith)
                requires
                    c < n_chunks,
            ;
            assert((c + 1) * chunk == c * chunk + chunk) by (nonlinear_arith);
        }
        let start = c * chunk;
        bit_reverse_range(packed.as_mut_slice(), start, log_chunk as u32);
        proof {
            let cc = chunk as int;
            assert forall|p: int| 0 <= p < orig.len() implies #[trigger] packed@[p] == (if p / cc
                < c + 1 {
                orig[(p / cc) * cc + rev_bits((p % cc) as nat, l)]
            } else {
                orig[p]
            }) by {
                lemma_fundamental_div_mod(p, cc);
                lemma_mod_bound(p, cc);
                lemma_div_pos_is_pos(p, cc);
                let q = p / cc;
                let r = p % cc;
                assert(p == q * cc + r) by (nonlinear_arith)
                    requires
                        p == cc * q + r,
                ;
                if start <= p < start + cc {
                    assert(q == c) by (nonlinear_arith)
                        requires
                            p == q * cc + r,
                            0 <= r < cc,
                            c * cc <= p < c * cc + cc,
                    ;
                    lemma_rev_bits_bound(r as nat, l);
                    let t = q * cc + rev_bits(r as nat, l);
                    lemma_fundamental_div_mod_converse(t, cc, q, rev_bits(r as nat, l) as int);
                } else {
                    assert(q != c) by (nonlinear_arith)
                        requires
                            p == q * cc + r,
                            0 <= r < cc,
                            !(c * cc <= p < c * cc + cc),
                    ;
                }
            }
        }
        c = c + 1;
    }
    proof {
        assert forall|p: int| 0 <= p < orig.len() implies #[trigger] packed@[p] == orig[(p / (
            chunk as int)) * chunk + rev_bits((p % (chunk as int)) as nat, l)] by {
            lemma_fundamental_div_mod(p, chunk as int);
            lemma_mod_bound(p, chunk as int);
            let q = p / (chunk as int);
            let r = p % (chunk as int);
            assert(q < c) by (nonlinear_arith)
                requires
                    p == chunk * q + r,
                    0 <= r,
                    p < c * chunk,
                    chunk > 0,
            ;
        }
    }
}

/// Applies the bit-reversal permutation to the scalars of a packed buffer: scalar `i` moves to
/// index `reverse_bits(i, log_len)`. Buffers of fewer than `width^2` scalars are permuted one
/// scalar pair at a time; larger ones in two phases that move whole packed elements: a transpose
/// of the strided square blocks, then a bit reversal within each chunk of packed elements.
pub fn bit_reverse_packed<T: Copy>(buffer: &mut PackedBuffer<T>)
    requires
        old(buffer).wf(),
    ensures
        final(buffer).wf(),
        final(buffer).log_width == old(buffer).log_width,
        final(buffer).log_len == old(buffer).log_len,
        final(buffer).scalars() == bit_reversed(old(buffer).scalars(), old(buffer).log_len as nat),
        old(buffer).same_padding(*final(buffer)),
{
    let log_len = buffer.log_len;
    let log_width = buffer.log_width;
    if log_len < 2 * log_width {
        bit_reverse_packed_naive(buffer);
        return ;
    }
    let ghost orig = *buffer;
    transpose_strided_blocks(buffer);
    let ghost mid = buffer.packed@;
    let width = buffer.width_exec();
    let log_chunk = log_len - 2 * log_width;
    let ghost w = log_width as nat;
    let ghost l = log_chunk as nat;
    proof {
        lemma_pow2_adds(w, l);
        lemma_pow2_pos(w);
        lemma_pow2_pos(l);
        assert(pow2(w) * pow2(l) == width * pow2(l));
    }
    reverse_chunks(&mut buffer.packed, width, log_chunk);
    proof {
        let wd = width as int;
        let c = pow2(l) as int;
        let n = mid.len() as int;
        assert forall|p: int| 0 <= p < n implies #[trigger] buffer.packed@[p]@.len() == wd by {
            lemma_chunk_split(p, w, l);
            lemma_rev_bits_bound((p % c) as nat, l);
            lemma_chunk_index(p / c, rev_bits((p % c) as nat, l) as int, w, l);
        }
        assert(buffer.wf());
        lemma_pow2_adds(l, w);
        lemma_pow2_adds(w, l + w);
        assert(orig.len_spec() == pow2(w) * pow2(l) * pow2(w)) by (nonlinear_arith)
            requires
                orig.len_spec() == pow2(w + (l + w)),
                pow2(w + (l + w)) == pow2(w) * pow2(l + w),
                pow2(l + w) == pow2(l) * pow2(w),
        ;
        assert forall|x: int| 0 <= x < orig.len_spec() implies #[trigger] buffer.scalars()[x]
            == bit_reversed(orig.scalars(), log_len as nat)[x] by {
            orig.lemma_scalar_position(x);
            lemma_rev_bits_packed(x as nat, w, l);
            lemma_rev_bits_bound(x as nat, log_len as nat);
            let p = x / wd;
            let k = x % wd;
            lemma_chunk_split(p, w, l);
            let cc = p / c;
            let m = p % c;
            lemma_rev_bits_bound(m as nat, l);
            lemma_rev_bits_bound(k as nat, w);
            lemma_rev_bits_bound(cc as nat, w);
            let q = cc * c + rev_bits(m as nat, l);
            lemma_chunk_index(cc, rev_bits(m as nat, l) as int, w, l);
            let src = rev_bits(k as nat, w) * c + rev_bits(m as nat, l);
            lemma_chunk_index(rev_bits(k as nat, w) as int, rev_bits(m as nat, l) as int, w, l);
            let y = src * wd + rev_bits(cc as nat, w);
            lemma_fundamental_div_mod_converse(y, wd, src, rev_bits(cc as nat, w) as int);
            assert(buffer.packed@[p] == mid[q]);
            assert(mid[q]@[k] == transposed_lane(orig.packed@, w, c as nat, c as nat, q, k));
            assert(rev_bits(x as nat, log_len as nat) == y);
            assert(orig.scalars()[y] == orig.packed@[src]@[rev_bits(cc as nat, w) as int]);
        }
        assert(buffer.scalars() =~= bit_reversed(orig.scalars(), log_len as nat));
        assert forall|p: int, k: int|
            0 <= p < orig.packed@.len() && 0 <= k < orig.width() && p * orig.width() + k
                >= orig.len_spec() implies #[trigger] buffer.packed@[p]@[k]
            == orig.packed@[p]@[k] by {
            assert(p * wd + k < n * wd) by (nonlinear_arith)
                requires
                    0 <= p < n,
                    0 <= k < wd,
            ;
        }
    }
}

/// Applying the bit-reversal permutation twice restores the original sequence.
pub proof fn lemma_bit_reversed_involution<T>(s: Seq<T>, bits: nat)
    requires
        s.len() == pow2(bits),
    ensures
        bit_reversed(bit_reversed(s, bits), bits) == s,
{
    assert forall|j: int| 0 <= j < s.len() implies bit_reversed(bit_reversed(s, bits), bits)[j]
        == s[j] by {
        lemma_rev_bits_bound(j as nat, bits);
        lemma_rev_bits_involution(j as nat, bits);
        lemma_small_mod(j as nat, pow2(bits));
    }
    assert(bit_reversed(bit_reversed(s, bits), bits) =~= s);
}

} // verus!
