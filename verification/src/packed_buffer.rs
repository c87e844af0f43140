//! Buffers of scalars grouped into packed elements of a power-of-two width.
use vstd::arithmetic::div_mod::*;
use vstd::arithmetic::mul::*;
use vstd::arithmetic::power2::*;
use vstd::prelude::*;

verus! {

/// A buffer of `2^log_len` scalars held in packed elements of `2^log_width` lanes each: scalar `i`
/// is lane `i % 2^log_width` of packed element `i / 2^log_width`. A buffer shorter than one packed
/// element occupies the low lanes of a single packed element.
pub struct PackedBuffer<T> {
    pub log_width: usize,
    pub log_len: usize,
    pub packed: Vec<Vec<T>>,
}

impl<T> PackedBuffer<T> {
    /// The number of lanes of a packed element.
    pub open spec fn width(self) -> nat {
        pow2(self.log_width as nat)
    }

    /// The number of scalars.
    pub open spec fn len_spec(self) -> nat {
        pow2(self.log_len as nat)
    }

    /// The number of packed elements that hold the scalars.
    pub open spec fn n_packed(self) -> nat {
        if self.log_len < self.log_width {
            1
        } else {
            pow2((self.log_len - self.log_width) as nat)
        }
    }

    /// The shape is consistent: as many packed elements as the length asks for, each of full
    /// width, and both sizes addressable.
    pub open spec fn wf(self) -> bool {
        &&& self.log_width < usize::BITS
        &&& self.log_len < usize::BITS
        &&& self.packed@.len() == self.n_packed()
        &&& forall|p: int|
            0 <= p < self.packed@.len() ==> #[trigger] self.packed@[p]@.len() == self.width()
    }

    /// The scalars of the buffer, in order.
    pub open spec fn scalars(self) -> Seq<T> {
        Seq::new(
            self.len_spec(),
            |i: int| self.packed@[i / self.width() as int]@[i % self.width() as int],
        )
    }

    /// `other` holds the same values as `self` in the lanes past the scalars. Only a buffer
    /// shorter than one packed element has such lanes.
    pub open spec fn same_padding(self, other: Self) -> bool {
        forall|p: int, k: int|
            0 <= p < self.packed@.len() && 0 <= k < self.width() && p * self.width() + k
                >= self.len_spec() ==> #[trigger] other.packed@[p]@[k] == self.packed@[p]@[k]
    }

    /// Scalar `i` lies in an existing packed element, at an existing lane.
    pub proof fn lemma_scalar_position(self, i: int)
        requires
            self.wf(),
            0 <= i < self.len_spec(),
        ensures
            0 <= i / self.width() as int,
            (i / self.width() as int) < self.packed@.len(),
            0 <= i % self.width() as int,
            (i % self.width() as int) < self.width(),
    {
        let w = self.width() as int;
        lemma_pow2_pos(self.log_width as nat);
        lemma_pow2_pos(self.log_len as nat);
        lemma_mod_bound(i, w);
        lemma_div_pos_is_pos(i, w);
        if self.log_len < self.log_width {
            lemma_pow2_strictly_increases(self.log_len as nat, self.log_width as nat);
            lemma_basic_div(i, w);
        } else {
            let n = pow2((self.log_len - self.log_width) as nat) as int;
            lemma_pow2_adds((self.log_len - self.log_width) as nat, self.log_width as nat);
            assert(i < n * w);
            lemma_fundamental_div_mod(i, w);
            let q = i / w;
            let r = i % w;
            assert(q < n) by (nonlinear_arith)
                requires
                    i == w * q + r,
                    0 <= r,
                    i < n * w,
                    w > 0,
            ;
        }
    }

    /// The number of scalars.
    pub fn len(&self) -> (n: usize)
        requires
            self.wf(),
        ensures
            n == self.len_spec(),
    {
        proof {
            vstd::bits::lemma_usize_pow2_no_overflow(self.log_len as nat);
            vstd::bits::lemma_usize_shl_is_mul(1, self.log_len);
        }
        1usize << self.log_len
    }

    /// The number of lanes of a packed element.
    pub fn width_exec(&self) -> (w: usize)
        requires
            self.wf(),
        ensures
            w == self.width(),
    {
        proof {
            vstd::bits::lemma_usize_pow2_no_overflow(self.log_width as nat);
            vstd::bits::lemma_usize_shl_is_mul(1, self.log_width);
        }
        1usize << self.log_width
    }

    /// Builds a buffer from its packed elements; `None` when the shape does not match the two
    /// sizes (a size too large to address, a wrong number of packed elements, or a packed element
    /// of the wrong width).
    pub fn new(log_width: usize, log_len: usize, packed: Vec<Vec<T>>) -> (r: Option<Self>)
        ensures
            r is Some <==> (PackedBuffer { log_width, log_len, packed }).wf(),
            r matches Some(b) ==> b == (PackedBuffer { log_width, log_len, packed }),
    {
        if log_width >= usize::BITS as usize || log_len >= usize::BITS as usize {
            return None;
        }
        let ghost b = PackedBuffer { log_width, log_len, packed };
        proof {
            vstd::bits::lemma_usize_pow2_no_overflow(log_width as nat);
            vstd::bits::lemma_usize_shl_is_mul(1, log_width);
        }
        let width = 1usize << log_width;
        let n_packed = if log_len < log_width {
            1usize
        } else {
            let shift = log_len - log_width;
            proof {
                vstd::bits::lemma_usize_pow2_no_overflow(shift as nat);
                vstd::bits::lemma_usize_shl_is_mul(1, shift);
            }
            1usize << shift
        };
        if packed.len() != n_packed {
            return None;
        }
        let mut p: usize = 0;
        let mut ok = true;
        while p < packed.len()
            invariant
                p <= packed@.len(),
                width == pow2(log_width as nat),
                ok <==> forall|q: int| 0 <= q < p ==> #[trigger] packed@[q]@.len() == width,
            decreases packed@.len() - p,
        {
            if packed[p].len() != width {
                ok = false;
            }
            p = p + 1;
        }
        if ok {
            Some(PackedBuffer { log_width, log_len, packed })
        } else {
            proof {
                assert(!b.wf());
            }
            None
        }
    }

    /// Reads scalar `i`.
    pub fn get(&self, i: usize) -> (v: T) where T: Copy
        requires
            self.wf(),
            i < self.len_spec(),
        ensures
            v == self.scalars()[i as int],
    {
        let width = self.width_exec();
        proof {
            self.lemma_scalar_position(i as int);
        }
        self.packed[i / width][i % width]
    }

    /// Writes scalar `i`, leaving the others as they were.
    pub fn set(&mut self, i: usize, v: T) where T: Copy
        requires
            old(self).wf(),
            i < old(self).len_spec(),
        ensures
            final(self).wf(),
            final(self).log_width == old(self).log_width,
            final(self).log_len == old(self).log_len,
            final(self).scalars() == old(self).scalars().update(i as int, v),
            old(self).same_padding(*final(self)),
    {
        let ghost before = *self;
        let width = self.width_exec();
        proof {
            self.lemma_scalar_position(i as int);
        }
        let p = i / width;
        let k = i % width;
        let mut row = copy_row(&self.packed[p]);
        row.set(k, v);
        self.packed.set(p, row);
        proof {
            let w = width as int;
            assert forall|x: int| 0 <= x < self.len_spec() implies #[trigger] self.scalars()[x]
                == before.scalars().update(i as int, v)[x] by {
                before.lemma_scalar_position(x);
                if x / w == p as int && x % w == k as int {
                    lemma_fundamental_div_mod(x, w);
                    lemma_fundamental_div_mod(i as int, w);
                }
            }
            assert(self.scalars() =~= before.scalars().update(i as int, v));
            lemma_fundamental_div_mod(i as int, w);
            assert(p as int * w + k as int == i as int) by (nonlinear_arith)
                requires
                    i as int == w * (p as int) + k as int,
            ;
        }
    }

    /// The scalars of the buffer, in order.
    pub fn to_scalars(&self) -> (s: Vec<T>) where T: Copy
        requires
            self.wf(),
        ensures
            s@ == self.scalars(),
    {
        let n = self.len();
        let mut s: Vec<T> = Vec::new();
        let mut i: usize = 0;
        while i < n
            invariant
                self.wf(),
                n == self.len_spec(),
                i <= n,
                s@ == self.scalars().take(i as int),
            decreases n - i,
        {
            let v = self.get(i);
            s.push(v);
            i = i + 1;
            proof {
                assert(s@ =~= self.scalars().take(i as int));
            }
        }
        proof {
            assert(s@ =~= self.scalars());
        }
        s
    }
}

/// A copy of a row of scalars.
pub fn copy_row<T: Copy>(row: &Vec<T>) -> (r: Vec<T>)
    ensures
        r@ == row@,
{
    let mut r: Vec<T> = Vec::new();
    let mut j: usize = 0;
    while j < row.len()
        invariant
            j <= row@.len(),
            r@ == row@.take(j as int),
        decreases row@.len() - j,
    {
        r.push(row[j]);
        j = j + 1;
        proof {
            assert(r@ =~= row@.take(j as int));
        }
    }
    proof {
        assert(r@ =~= row@);
    }
    r
}

} // verus!
