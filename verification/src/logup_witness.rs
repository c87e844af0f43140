//! The index-dependent witnesses of the logUp* prover, over 128-bit binary-field elements.
//!
//! A binary-field element is held as its 128-bit underlier. Addition and subtraction in a binary
//! field are both the bitwise XOR of underliers, and the `GF(2)`-linear embedding of a table
//! position `j` is the element whose underlier is `j`.
use vstd::arithmetic::power2::*;
use vstd::prelude::*;

verus! {

/// The field element a table position embeds to: the element whose underlier is `j`.
pub fn embed_position(j: usize) -> (e: u128)
    ensures
        e == j as u128,
{
    j as u128
}

/// The looker denominator `c - I`: entry `i` is `c - iota(index[i])`.
pub fn looker_denominator(c: u128, index: &[usize]) -> (d: Vec<u128>)
    ensures
        d@.len() == index@.len(),
        forall|i: int| 0 <= i < index@.len() ==> #[trigger] d@[i] == c ^ (index@[i] as u128),
{
    let mut d: Vec<u128> = Vec::new();
    let mut i: usize = 0;
    while i < index.len()
        invariant
            i <= index@.len(),
            d@.len() == i,
            forall|k: int| 0 <= k < i ==> #[trigger] d@[k] == c ^ (index@[k] as u128),
        decreases index@.len() - i,
    {
        d.push(c ^ embed_position(index[i]));
        i = i + 1;
    }
    d
}

/// The table denominator `c - J` over the `table_n_vars`-variable table cube: entry `j` is
/// `c - iota(j)`.
pub fn table_denominator(c: u128, table_n_vars: usize) -> (d: Vec<u128>)
    requires
        table_n_vars < usize::BITS,
    ensures
        d@.len() == pow2(table_n_vars as nat),
        forall|j: int| 0 <= j < d@.len() ==> #[trigger] d@[j] == c ^ (j as u128),
{
    proof {
        vstd::bits::lemma_usize_pow2_no_overflow(table_n_vars as nat);
        vstd::bits::lemma_usize_shl_is_mul(1, table_n_vars);
    }
    let size = 1usize << table_n_vars;
    let mut d: Vec<u128> = Vec::new();
    let mut j: usize = 0;
    while j < size
        invariant
            j <= size,
            size == pow2(table_n_vars as nat),
            d@.len() == j,
            forall|k: int| 0 <= k < j ==> #[trigger] d@[k] == c ^ (k as u128),
        decreases size - j,
    {
        d.push(c ^ embed_position(j));
        j = j + 1;
    }
    d
}

/// The pushforward entry at table position `t` over the first `n` looker rows: the sum (XOR) of
/// `eq_r[i]` over the rows `i < n` whose index is `t`.
pub open spec fn pushforward_entry(eq_r: Seq<u128>, index: Seq<usize>, n: nat, t: int) -> u128
    decreases n,
{
    if n == 0 {
        0
    } else {
        let i = (n - 1) as int;
        let prev = pushforward_entry(eq_r, index, (n - 1) as nat, t);
        if index[i] as int == t {
            prev ^ eq_r[i]
        } else {
            prev
        }
    }
}

/// The pushforward `Y = I_* eq_r` over the `table_n_vars`-variable table cube:
/// `Y[t] = sum_{i : index[i] = t} eq_r[i]`, over the rows that have both an `eq_r` value and an
/// index.
pub fn pushforward(eq_r: &[u128], index: &[usize], table_n_vars: usize) -> (y: Vec<u128>)
    requires
        table_n_vars < usize::BITS,
        forall|i: int| 0 <= i < index@.len() ==> #[trigger] index@[i] < pow2(table_n_vars as nat),
    ensures
        y@.len() == pow2(table_n_vars as nat),
        forall|t: int|
            0 <= t < y@.len() ==> #[trigger] y@[t] == pushforward_entry(
                eq_r@,
                index@,
                if eq_r@.len() <= index@.len() {
                    eq_r@.len()
                } else {
                    index@.len()
                },
                t,
            ),
        y@ == pushforward_entries(
            eq_r@,
            index@,
            if eq_r@.len() <= index@.len() {
                eq_r@.len()
            } else {
                index@.len()
            },
            pow2(table_n_vars as nat),
        ),
{
    proof {
        vstd::bits::lemma_usize_pow2_no_overflow(table_n_vars as nat);
        vstd::bits::lemma_usize_shl_is_mul(1, table_n_vars);
    }
    let table_size = 1usize << table_n_vars;
    let mut buckets: Vec<u128> = Vec::new();
    let mut t: usize = 0;
    while t < table_size
        invariant
            t <= table_size,
            buckets@.len() == t,
            forall|k: int| 0 <= k < t ==> #[trigger] buckets@[k] == 0u128,
        decreases table_size - t,
    {
        buckets.push(0);
        t = t + 1;
    }
    let n = if eq_r.len() <= index.len() {
        eq_r.len()
    } else {
        index.len()
    };
    let mut i: usize = 0;
    while i < n
        invariant
            i <= n <= eq_r@.len(),
            n <= index@.len(),
            table_size == pow2(table_n_vars as nat),
            buckets@.len() == table_size,
            forall|k: int| 0 <= k < index@.len() ==> #[trigger] index@[k] < table_size,
            forall|k: int|
                0 <= k < buckets@.len() ==> #[trigger] buckets@[k] == pushforward_entry(
                    eq_r@,
                    index@,
                    i as nat,
                    k,
                ),
        decreases n - i,
    {
        let j = index[i];
        let updated = buckets[j] ^ eq_r[i];
        buckets.set(j, updated);
        i = i + 1;
    }
    proof {
        assert(buckets@ =~= pushforward_entries(eq_r@, index@, n as nat, table_size as nat));
    }
    buckets
}

/// The sum (XOR) of the pushforward entries at the table positions below `k` that `table`
/// selects.
pub open spec fn selected_table_sum(
    eq_r: Seq<u128>,
    index: Seq<usize>,
    n: nat,
    table: spec_fn(int) -> bool,
    k: nat,
) -> u128
    decreases k,
{
    if k == 0 {
        0
    } else {
        let t = (k - 1) as int;
        let prev = selected_table_sum(eq_r, index, n, table, (k - 1) as nat);
        if table(t) {
            prev ^ pushforward_entry(eq_r, index, n, t)
        } else {
            prev
        }
    }
}

/// The sum (XOR) of `eq_r[i]` over the first `n` looker rows whose looked-up position `table`
/// selects.
pub open spec fn selected_row_sum(
    eq_r: Seq<u128>,
    index: Seq<usize>,
    n: nat,
    table: spec_fn(int) -> bool,
) -> u128
    decreases n,
{
    if n == 0 {
        0
    } else {
        let i = (n - 1) as int;
        let prev = selected_row_sum(eq_r, index, (n - 1) as nat, table);
        if table(index[i] as int) {
            prev ^ eq_r[i]
        } else {
            prev
        }
    }
}

proof fn lemma_xor_facts(a: u128, b: u128, c: u128)
    ensures
        (a ^ b) ^ c == a ^ (b ^ c),
        a ^ b == b ^ a,
        a ^ 0 == a,
{
    assert((a ^ b) ^ c == a ^ (b ^ c)) by (bit_vector);
    assert(a ^ b == b ^ a) by (bit_vector);
    assert(a ^ 0 == a) by (bit_vector);
}

/// Adding looker row `n` changes the selected table sum over positions below `k` by that row's
/// value exactly when its position is below `k` and selected.
proof fn lemma_table_sum_step(
    eq_r: Seq<u128>,
    index: Seq<usize>,
    n: nat,
    table: spec_fn(int) -> bool,
    k: nat,
)
    requires
        n < eq_r.len(),
        n < index.len(),
    ensures
        selected_table_sum(eq_r, index, n + 1, table, k) == selected_table_sum(
            eq_r,
            index,
            n,
            table,
            k,
        ) ^ (if (index[n as int] as int) < k && table(index[n as int] as int) {
            eq_r[n as int]
        } else {
            0
        }),
    decreases k,
{
    let j = index[n as int] as int;
    let v = eq_r[n as int];
    if k == 0 {
        lemma_xor_facts(0, 0, 0);
    } else {
        let t = (k - 1) as int;
        lemma_table_sum_step(eq_r, index, n, table, (k - 1) as nat);
        let p1 = selected_table_sum(eq_r, index, n + 1, table, (k - 1) as nat);
        let p0 = selected_table_sum(eq_r, index, n, table, (k - 1) as nat);
        let e0 = pushforward_entry(eq_r, index, n, t);
        let d = if j < k - 1 && table(j) {
            v
        } else {
            0
        };
        assert(p1 == p0 ^ d);
        assert(pushforward_entry(eq_r, index, n + 1, t) == if j == t {
            e0 ^ v
        } else {
            e0
        });
        if table(t) {
            if j == t {
                lemma_xor_facts(p0, 0, e0 ^ v);
                lemma_xor_facts(p0, e0, v);
                assert(d == 0);
            } else {
                lemma_xor_facts(p0, d, e0);
                lemma_xor_facts(p0, e0, d);
                lemma_xor_facts(d, e0, 0);
            }
        } else {
            lemma_xor_facts(p0, d, 0);
        }
    }
}

/// The pushforward is dual to the pullback: for a table that holds 1 at the positions it selects
/// and 0 elsewhere, the inner product with the pushforward, `<T, Y>`, equals the sum of `eq_r`
/// over the looker rows whose looked-up entry `T[index[i]]` is 1, i.e. `<I^* T, eq_r>`.
pub proof fn lemma_pushforward_duality(
    eq_r: Seq<u128>,
    index: Seq<usize>,
    n: nat,
    table: spec_fn(int) -> bool,
    table_size: nat,
)
    requires
        n <= eq_r.len(),
        n <= index.len(),
        forall|i: int| 0 <= i < n ==> (#[trigger] index[i] as int) < table_size,
    ensures
        selected_table_sum(eq_r, index, n, table, table_size) == selected_row_sum(
            eq_r,
            index,
            n,
            table,
        ),
    decreases n,
{
    if n == 0 {
        lemma_empty_pushforward_sum(eq_r, index, table, table_size);
    } else {
        let m = (n - 1) as nat;
        lemma_pushforward_duality(eq_r, index, m, table, table_size);
        lemma_table_sum_step(eq_r, index, m, table, table_size);
        assert((index[m as int] as int) < table_size);
        lemma_xor_facts(selected_row_sum(eq_r, index, m, table), 0, 0);
    }
}

proof fn lemma_empty_pushforward_sum(
    eq_r: Seq<u128>,
    index: Seq<usize>,
    table: spec_fn(int) -> bool,
    k: nat,
)
    ensures
        selected_table_sum(eq_r, index, 0, table, k) == 0,
    decreases k,
{
    if k > 0 {
        lemma_empty_pushforward_sum(eq_r, index, table, (k - 1) as nat);
        lemma_xor_facts(0, 0, 0);
    }
}

/// The sum (XOR) of the first `n` elements of `s`.
pub open spec fn xor_prefix(s: Seq<u128>, n: nat) -> u128
    decreases n,
{
    if n == 0 {
        0
    } else {
        xor_prefix(s, (n - 1) as nat) ^ s[n - 1]
    }
}

/// The pushforward over the first `n` looker rows, as the sequence of its `table_size` entries.
pub open spec fn pushforward_entries(
    eq_r: Seq<u128>,
    index: Seq<usize>,
    n: nat,
    table_size: nat,
) -> Seq<u128> {
    Seq::new(table_size, |t: int| pushforward_entry(eq_r, index, n, t))
}

/// The table that selects every position.
pub open spec fn every_position() -> spec_fn(int) -> bool {
    |t: int| true
}

proof fn lemma_every_position_table_sum(
    eq_r: Seq<u128>,
    index: Seq<usize>,
    n: nat,
    table_size: nat,
    k: nat,
)
    requires
        k <= table_size,
    ensures
        selected_table_sum(eq_r, index, n, every_position(), k) == xor_prefix(
            pushforward_entries(eq_r, index, n, table_size),
            k,
        ),
    decreases k,
{
    if k > 0 {
        lemma_every_position_table_sum(eq_r, index, n, table_size, (k - 1) as nat);
        assert(every_position()((k - 1) as int));
    }
}

proof fn lemma_every_position_row_sum(eq_r: Seq<u128>, index: Seq<usize>, n: nat)
    ensures
        selected_row_sum(eq_r, index, n, every_position()) == xor_prefix(eq_r, n),
    decreases n,
{
    if n > 0 {
        lemma_every_position_row_sum(eq_r, index, (n - 1) as nat);
        assert(every_position()(index[n - 1] as int));
    }
}

/// The pushforward keeps the total: the sum (XOR) of all its entries equals the sum of `eq_r`
/// over the looker rows, when every row's index lies in the table.
pub proof fn lemma_pushforward_total(
    eq_r: Seq<u128>,
    index: Seq<usize>,
    n: nat,
    table_size: nat,
)
    requires
        n <= eq_r.len(),
        n <= index.len(),
        forall|i: int| 0 <= i < n ==> (#[trigger] index[i] as int) < table_size,
    ensures
        xor_prefix(pushforward_entries(eq_r, index, n, table_size), table_size) == xor_prefix(
            eq_r,
            n,
        ),
{
    lemma_pushforward_duality(eq_r, index, n, every_position(), table_size);
    lemma_every_position_table_sum(eq_r, index, n, table_size, table_size);
    lemma_every_position_row_sum(eq_r, index, n);
}

} // verus!
