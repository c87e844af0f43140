//! Sequential counterparts of the indexed parallel-iterator adaptors: each adaptor takes the
//! items of an indexed (exact-length) sequence and returns the items the adapted sequence yields,
//! in order.
use itertools::Itertools;
use vstd::prelude::*;

verus! {

/// The concatenation of two indexed sequences; its length is known up front.
pub struct Chain<T> {
    first: Vec<T>,
    second: Vec<T>,
}

impl<T> Chain<T> {
    /// The items the chain yields: those of the first sequence, then those of the second.
    pub closed spec fn items(&self) -> Seq<T> {
        self.first@ + self.second@
    }

    /// Chains two sequences.
    pub fn new(first: Vec<T>, second: Vec<T>) -> (c: Self)
        ensures
            c.items() == first@ + second@,
    {
        Chain { first, second }
    }

    /// The exact number of items the chain yields.
    pub fn len(&self) -> (n: usize)
        requires
            self.items().len() <= usize::MAX,
        ensures
            n == self.items().len(),
    {
        self.first.len() + self.second.len()
    }

    /// Collects the chained items into a vector.
    pub fn collect(self) -> (v: Vec<T>)
        requires
            self.items().len() <= usize::MAX,
        ensures
            v@ == self.items(),
    {
        let Chain { mut first, mut second } = self;
        first.append(&mut second);
        first
    }

    /// Chains a further sequence after this one; the result is again an indexed sequence.
    pub fn chain(self, more: Vec<T>) -> (c: Chain<T>)
        requires
            self.items().len() <= usize::MAX,
        ensures
            c.items() == self.items() + more@,
    {
        let v = self.collect();
        Chain::new(v, more)
    }
}

/// Chaining is associative: chaining `a` and `b` and then `c` yields the same items as chaining
/// `a` with the chain of `b` and `c`.
pub proof fn lemma_chain_associative<T>(a: Seq<T>, b: Seq<T>, c: Seq<T>)
    ensures
        (a + b) + c == a + (b + c),
{
    assert((a + b) + c =~= a + (b + c));
}

/// Pairs the items of two sequences position by position, stopping at the shorter one.
pub fn zip<A: Copy, B: Copy>(a: &[A], b: &[B]) -> (r: Vec<(A, B)>)
    ensures
        r@.len() == if a@.len() <= b@.len() {
            a@.len()
        } else {
            b@.len()
        },
        forall|i: int| 0 <= i < r@.len() ==> #[trigger] r@[i] == (a@[i], b@[i]),
{
    let n = if a.len() <= b.len() {
        a.len()
    } else {
        b.len()
    };
    let mut r: Vec<(A, B)> = Vec::new();
    let mut i: usize = 0;
    while i < n
        invariant
            i <= n,
            n <= a@.len(),
            n <= b@.len(),
            r@.len() == i,
            forall|k: int| 0 <= k < i ==> #[trigger] r@[k] == (a@[k], b@[k]),
        decreases n - i,
    {
        r.push((a[i], b[i]));
        i = i + 1;
    }
    r
}

/// Pairs two sequences of equal length with `itertools::Itertools::zip_eq`, which panics when
/// the lengths differ. The contract claims the pairs are taken position by position.
#[verifier::external_body]
fn itertools_zip_eq<A, B>(a: Vec<A>, b: Vec<B>) -> (r: Vec<(A, B)>)
    requires
        a@.len() == b@.len(),
    ensures
        r@.len() == a@.len(),
        forall|i: int| 0 <= i < r@.len() ==> #[trigger] r@[i] == (a@[i], b@[i]),
{
    a.into_iter().zip_eq(b).collect()
}

/// Pairs two sequences of equal length position by position.
pub fn zip_eq<A, B>(a: Vec<A>, b: Vec<B>) -> (r: Vec<(A, B)>)
    requires
        a@.len() == b@.len(),
    ensures
        r@.len() == a@.len(),
        forall|i: int| 0 <= i < r@.len() ==> #[trigger] r@[i] == (a@[i], b@[i]),
{
    itertools_zip_eq(a, b)
}

/// Every `step`-th item, starting with the first.
pub fn step_by<T: Copy>(a: &[T], step: usize) -> (r: Vec<T>)
    requires
        step > 0,
    ensures
        r@.len() == (a@.len() + step - 1) / (step as int),
        forall|i: int| 0 <= i < r@.len() ==> #[trigger] r@[i] == a@[i * step],
{
    let mut r: Vec<T> = Vec::new();
    let mut i: usize = 0;
    let ghost n = a@.len() as int;
    let ghost st = step as int;
    proof {
        vstd::arithmetic::div_mod::lemma_basic_div(st - 1, st);
        assert(0 * st == 0);
    }
    while i < a.len()
        invariant
            st == step,
            st > 0,
            i <= n,
            n == a@.len(),
            i == r@.len() * st,
            r@.len() > 0 ==> i < n,
            r@.len() == (i + st - 1) / st,
            forall|k: int| 0 <= k < r@.len() ==> #[trigger] r@[k] == a@[k * step],
        decreases a@.len() - i,
    {
        let ghost c = r@.len() as int;
        r.push(a[i]);
        proof {
            assert((c + 1) * st == i + st) by (nonlinear_arith)
                requires
                    c * st == i,
            ;
        }
        if a.len() - i <= step {
            proof {
                vstd::arithmetic::div_mod::lemma_fundamental_div_mod_converse(
                    n + st - 1,
                    st,
                    c + 1,
                    n - i - 1,
                );
            }
            return r;
        }
        proof {
            vstd::arithmetic::div_mod::lemma_fundamental_div_mod_converse(
                i + st + st - 1,
                st,
                c + 1,
                st - 1,
            );
        }
        i = i + step;
    }
    proof {
        assert(n == 0);
        vstd::arithmetic::div_mod::lemma_basic_div(st - 1, st);
    }
    r
}

/// The first `n` items (all of them when there are fewer).
pub fn take<T: Copy>(a: &[T], n: usize) -> (r: Vec<T>)
    ensures
        r@ == a@.take(if n <= a@.len() {
            n as int
        } else {
            a@.len() as int
        }),
{
    let m = if n <= a.len() {
        n
    } else {
        a.len()
    };
    let mut r: Vec<T> = Vec::new();
    let mut i: usize = 0;
    while i < m
        invariant
            i <= m <= a@.len(),
            r@ == a@.take(i as int),
        decreases m - i,
    {
        r.push(a[i]);
        proof {
            assert(a@.take(i as int + 1) =~= a@.take(i as int).push(a@[i as int]));
        }
        i = i + 1;
    }
    r
}

/// Each item paired with its position.
pub fn enumerate<T: Copy>(a: &[T]) -> (r: Vec<(usize, T)>)
    ensures
        r@.len() == a@.len(),
        forall|i: int| 0 <= i < r@.len() ==> #[trigger] r@[i] == (i as usize, a@[i]),
{
    let mut r: Vec<(usize, T)> = Vec::new();
    let mut i: usize = 0;
    while i < a.len()
        invariant
            i <= a@.len(),
            r@.len() == i,
            forall|k: int| 0 <= k < i ==> #[trigger] r@[k] == (k as usize, a@[k]),
        decreases a@.len() - i,
    {
        r.push((i, a[i]));
        i = i + 1;
    }
    r
}

/// The items grouped into consecutive chunks of `chunk_size`; only the last chunk may be shorter.
pub fn chunks<T: Copy>(a: &[T], chunk_size: usize) -> (r: Vec<Vec<T>>)
    requires
        chunk_size != 0,
    ensures
        r@.len() == (a@.len() + chunk_size - 1) / chunk_size as int,
        forall|c: int|
            0 <= c < r@.len() ==> #[trigger] r@[c]@ == a@.subrange(
                c * chunk_size,
                if (c + 1) * chunk_size <= a@.len() {
                    (c + 1) * chunk_size
                } else {
                    a@.len() as int
                },
            ),
{
    let mut r: Vec<Vec<T>> = Vec::new();
    let mut start: usize = 0;
    let ghost n = a@.len() as int;
    let ghost cs = chunk_size as int;
    proof {
        vstd::arithmetic::div_mod::lemma_basic_div(cs - 1, cs);
        assert(0 * cs == 0);
    }
    while start < a.len()
        invariant
            n == a@.len(),
            cs == chunk_size,
            cs > 0,
            start <= n,
            start == r@.len() * cs,
            r@.len() > 0 ==> start < n,
            forall|c: int|
                0 <= c < r@.len() ==> #[trigger] r@[c]@ == a@.subrange(
                    c * cs,
                    if (c + 1) * cs <= n {
                        (c + 1) * cs
                    } else {
                        n
                    },
                ),
            r@.len() == (start + cs - 1) / cs,
        decreases a@.len() - start,
    {
        let end = if a.len() - start <= chunk_size {
            a.len()
        } else {
            start + chunk_size
        };
        let mut chunk: Vec<T> = Vec::new();
        let mut j: usize = start;
        while j < end
            invariant
                start <= j <= end <= a@.len(),
                chunk@ == a@.subrange(start as int, j as int),
            decreases end - j,
        {
            chunk.push(a[j]);
            proof {
                assert(a@.subrange(start as int, j + 1) =~= a@.subrange(start as int, j as int).push(
                    a@[j as int],
                ));
            }
            j = j + 1;
        }
        let ghost c = r@.len() as int;
        proof {
            assert(c * cs == start);
            assert((c + 1) * cs == start + cs) by (nonlinear_arith)
                requires
                    c * cs == start,
            ;
        }
        r.push(chunk);
        proof {
            vstd::arithmetic::div_mod::lemma_div_plus_one(start as int + cs - 1, cs);
            if end == n {
                assert((n + cs - 1) / cs == c + 1) by {
                    vstd::arithmetic::div_mod::lemma_fundamental_div_mod_converse(
                        n + cs - 1,
                        cs,
                        c + 1,
                        n - start - 1,
                    );
                }
            } else {
                assert((start + cs + cs - 1) / cs == c + 1) by {
                    vstd::arithmetic::div_mod::lemma_fundamental_div_mod_converse(
                        start + cs + cs - 1,
                        cs,
                        c + 1,
                        cs - 1,
                    );
                }
            }
        }
        if end == a.len() {
            return r;
        }
        start = end;
    }
    proof {
        assert(n == 0);
        assert((cs - 1) / cs == 0) by {
            vstd::arithmetic::div_mod::lemma_basic_div(cs - 1, cs);
        }
    }
    r
}

/// Applies `f` to every item, in order.
pub fn map<T, U, F: Fn(&T) -> U>(a: &[T], f: F) -> (r: Vec<U>)
    requires
        forall|i: int| 0 <= i < a@.len() ==> #[trigger] f.requires((&a@[i],)),
    ensures
        r@.len() == a@.len(),
        forall|i: int| 0 <= i < a@.len() ==> f.ensures((&a@[i],), #[trigger] r@[i]),
{
    let mut r: Vec<U> = Vec::new();
    let mut i: usize = 0;
    while i < a.len()
        invariant
            i <= a@.len(),
            r@.len() == i,
            forall|k: int| 0 <= k < a@.len() ==> #[trigger] f.requires((&a@[k],)),
            forall|k: int| 0 <= k < i ==> f.ensures((&a@[k],), #[trigger] r@[k]),
        decreases a@.len() - i,
    {
        let y = f(&a[i]);
        r.push(y);
        i = i + 1;
    }
    r
}

/// Replaces the contents of `target` with the items of `items`.
pub fn collect_into_vec<T: Copy>(items: &[T], target: &mut Vec<T>)
    ensures
        final(target)@ == items@,
{
    target.clear();
    let mut i: usize = 0;
    while i < items.len()
        invariant
            i <= items@.len(),
            target@ == items@.take(i as int),
        decreases items@.len() - i,
    {
        target.push(items[i]);
        proof {
            assert(items@.take(i as int + 1) =~= items@.take(i as int).push(items@[i as int]));
        }
        i = i + 1;
    }
    proof {
        assert(items@.take(items@.len() as int) =~= items@);
    }
}

} // verus!
