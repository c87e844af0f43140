//! Packed selector columns of the integer-multiplication witness, over 128-bit binary-field
//! underliers (the zero element is `0`).
use vstd::arithmetic::div_mod::*;
use vstd::arithmetic::power2::*;
use vstd::prelude::*;

use crate::bit_reverse::log2_strict;
use crate::bitwise::{BitSelector, Bitwise};
use crate::packed_buffer::PackedBuffer;

verus! {

/// The scalars selected by one bit position: entry `i` is `elements[1]` when bit `bit_offset` of
/// `exponents[i]` is set, and `elements[0]` otherwise.
pub open spec fn two_valued_scalars<B: Bitwise>(
    bit_offset: nat,
    exponents: Seq<B>,
    elements: [u128; 2],
) -> Seq<u128> {
    Seq::new(
        exponents.len(),
        |i: int|
            if exponents[i].bit_is_set(bit_offset) {
                elements[1]
            } else {
                elements[0]
            },
    )
}

/// Builds the packed buffer whose scalar `i` is `elements[1]` when bit `bit_offset` of
/// `exponents[i]` is set and `elements[0]` otherwise. The buffer has `log2(exponents.len())`
/// variables; when that is fewer than one packed element, the lanes past the scalars are zero.
pub fn two_valued_field_buffer<B: Bitwise>(
    bit_offset: usize,
    exponents: &[B],
    elements: [u128; 2],
    log_width: usize,
) -> (r: PackedBuffer<u128>)
    requires
        exists|e: nat| pow2(e) == exponents@.len(),
        bit_offset < B::width(),
        log_width < usize::BITS,
    ensures
        r.wf(),
        r.log_width == log_width,
        r.len_spec() == exponents@.len(),
        r.scalars() == two_valued_scalars(bit_offset as nat, exponents@, elements),
        forall|p: int, k: int|
            0 <= p < r.packed@.len() && 0 <= k < r.width() && p * r.width() + k
                >= exponents@.len() ==> #[trigger] r.packed@[p]@[k] == 0,
{
    let len = exponents.len();
    let n_vars = log2_strict(len) as usize;
    proof {
        vstd::bits::lemma_usize_pow2_no_overflow(log_width as nat);
        vstd::bits::lemma_usize_shl_is_mul(1, log_width);
        lemma_pow2_pos(log_width as nat);
    }
    let width = 1usize << log_width;
    let p_width = if width < len {
        width
    } else {
        len
    };
    let n_packed = if n_vars < log_width {
        1usize
    } else {
        let shift = n_vars - log_width;
        proof {
            vstd::bits::lemma_usize_pow2_no_overflow(shift as nat);
            vstd::bits::lemma_usize_shl_is_mul(1, shift);
        }
        1usize << shift
    };
    proof {
        if n_vars < log_width {
            lemma_pow2_strictly_increases(n_vars as nat, log_width as nat);
        } else {
            lemma_pow2_adds((n_vars - log_width) as nat, log_width as nat);
            assert((n_vars - log_width) as nat + log_width as nat == n_vars as nat);
        }
    }
    let bits = BitSelector::new(bit_offset, exponents);
    let mut packed: Vec<Vec<u128>> = Vec::new();
    let mut i: usize = 0;
    while i < n_packed
        invariant
            bits.words() == exponents@,
            bits.offset() == bit_offset,
            bit_offset < B::width(),
            len == exponents@.len(),
            width == pow2(log_width as nat),
            width > 0,
            p_width == (if width < len {
                width
            } else {
                len
            }),
            n_packed * width == len || (n_packed == 1 && len < width),
            i <= n_packed,
            packed@.len() == i,
            forall|p: int| 0 <= p < i ==> #[trigger] packed@[p]@.len() == width,
            forall|p: int, k: int|
                0 <= p < i && 0 <= k < width ==> #[trigger] packed@[p]@[k] == (if k < p_width {
                    two_valued_scalars(bit_offset as nat, exponents@, elements)[p * width + k]
                } else {
                    0
                }),
        decreases n_packed - i,
    {
        let mut row: Vec<u128> = Vec::new();
        let mut j: usize = 0;
        proof {
            assert(i * width + width <= n_packed * width || i == 0) by (nonlinear_arith)
                requires
                    i < n_packed,
            ;
        }
        while j < width
            invariant
                bits.words() == exponents@,
                bits.offset() == bit_offset,
                bit_offset < B::width(),
                len == exponents@.len(),
                width == pow2(log_width as nat),
                p_width == (if width < len {
                    width
                } else {
                    len
                }),
                n_packed * width == len || (n_packed == 1 && len < width),
                i < n_packed,
                i * width + width <= n_packed * width || i == 0,
                j <= width,
                row@.len() == j,
                forall|k: int|
                    0 <= k < j ==> #[trigger] row@[k] == (if k < p_width {
                        two_valued_scalars(bit_offset as nat, exponents@, elements)[i * width
                            + k]
                    } else {
                        0
                    }),
            decreases width - j,
        {
            let v = if j < p_width {
                proof {
                    assert(i * width + j < len) by (nonlinear_arith)
                        requires
                            j < p_width,
                            p_width <= width,
                            p_width <= len,
                            n_packed * width == len || (n_packed == 1 && len < width),
                            i < n_packed,
                            i * width + width <= n_packed * width || i == 0,
                    ;
                }
                if bits.get(i * width + j) {
                    elements[1]
                } else {
                    elements[0]
                }
            } else {
                0
            };
            row.push(v);
            j = j + 1;
        }
        packed.push(row);
        i = i + 1;
    }
    let r = PackedBuffer { log_width, log_len: n_vars, packed };
    proof {
        let w = width as int;
        let vals = two_valued_scalars(bit_offset as nat, exponents@, elements);
        assert(r.wf());
        assert forall|x: int| 0 <= x < len implies #[trigger] r.scalars()[x] == vals[x] by {
            r.lemma_scalar_position(x);
            lemma_fundamental_div_mod(x, w);
            let p = x / w;
            let k = x % w;
            assert(p * w + k == x) by (nonlinear_arith)
                requires
                    x == w * p + k,
            ;
            if len < w {
                vstd::arithmetic::div_mod::lemma_basic_div(x, w);
            }
        }
        assert(r.scalars() =~= vals);
        assert forall|p: int, k: int|
            0 <= p < r.packed@.len() && 0 <= k < r.width() && p * r.width() + k
                >= exponents@.len() implies #[trigger] r.packed@[p]@[k] == 0 by {
            if n_packed == 1 {
                assert(p == 0);
            } else {
                assert(p * w + k < n_packed * w) by (nonlinear_arith)
                    requires
                        0 <= p < n_packed,
                        0 <= k < w,
                ;
            }
        }
    }
    r
}

} // verus!
