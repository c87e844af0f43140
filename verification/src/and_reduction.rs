//! Reshaping the word columns of the AND reduction into fixed-length chunks.
use vstd::arithmetic::div_mod::*;
use vstd::arithmetic::power2::*;
use vstd::prelude::*;

use crate::value_table::Word;

verus! {

/// Views the words as chunks of `chunk_len` words each.
///
/// When fewer than `chunk_len` words are given, they are repeated to fill one chunk; repeating
/// corresponds to variable padding over the boolean hypercube. Both lengths are powers of two, so
/// otherwise the words split evenly into chunks.
pub fn duplicate_to_fixed_chunks(words: &[Word], chunk_len: usize) -> (chunks: Vec<Vec<Word>>)
    requires
        exists|e: nat| pow2(e) == words@.len(),
        exists|e: nat| pow2(e) == chunk_len,
    ensures
        words@.len() >= chunk_len ==> chunks@.len() == (words@.len() as int) / (chunk_len as int),
        words@.len() < chunk_len ==> chunks@.len() == 1,
        forall|c: int| 0 <= c < chunks@.len() ==> (#[trigger] chunks@[c])@.len() == chunk_len,
        forall|c: int, k: int|
            0 <= c < chunks@.len() && 0 <= k < chunk_len ==> #[trigger] chunks@[c]@[k] == words@[(
            c * chunk_len + k) % (words@.len() as int)],
{
    let n = words.len();
    proof {
        let e1 = choose|e: nat| pow2(e) == words@.len();
        let e2 = choose|e: nat| pow2(e) == chunk_len;
        lemma_pow2_pos(e1);
        lemma_pow2_pos(e2);
        if n >= chunk_len {
            // chunk_len divides n: both are powers of two.
            if e2 > e1 {
                lemma_pow2_strictly_increases(e1, e2);
            }
            lemma_pow2_adds((e1 - e2) as nat, e2);
            lemma_mod_multiples_basic(pow2((e1 - e2) as nat) as int, chunk_len as int);
        }
    }
    let mut chunks: Vec<Vec<Word>> = Vec::new();
    if n < chunk_len {
        let mut repeated: Vec<Word> = Vec::new();
        let mut k: usize = 0;
        while k < chunk_len
            invariant
                k <= chunk_len,
                0 < n < chunk_len,
                n == words@.len(),
                repeated@.len() == k,
                forall|t: int| 0 <= t < k ==> #[trigger] repeated@[t] == words@[t % (n as int)],
            decreases chunk_len - k,
        {
            proof {
                lemma_mod_bound(k as int, n as int);
            }
            repeated.push(words[k % n]);
            k = k + 1;
        }
        chunks.push(repeated);
        proof {
            assert forall|c: int, k: int|
                0 <= c < chunks@.len() && 0 <= k < chunk_len implies #[trigger] chunks@[c]@[k]
                == words@[(c * chunk_len + k) % (words@.len() as int)] by {
                assert(c == 0);
                assert(c * chunk_len + k == k);
            }
        }
        return chunks;
    }
    let count = n / chunk_len;
    proof {
        lemma_fundamental_div_mod(n as int, chunk_len as int);
    }
    let mut c: usize = 0;
    while c < count
        invariant
            c <= count,
            count == (n as int) / (chunk_len as int),
            n == words@.len(),
            (n as int) % (chunk_len as int) == 0,
            chunk_len > 0,
            n == chunk_len * count,
            chunks@.len() == c,
            forall|cc: int| 0 <= cc < c ==> (#[trigger] chunks@[cc])@.len() == chunk_len,
            forall|cc: int, k: int|
                0 <= cc < c && 0 <= k < chunk_len ==> #[trigger] chunks@[cc]@[k] == words@[cc
                    * chunk_len + k],
        decreases count - c,
    {
        proof {
            assert((c + 1) * chunk_len <= count * chunk_len) by (nonlinear_arith)
                requires
                    c < count,
            ;
            assert((c + 1) * chunk_len == c * chunk_len + chunk_len) by (nonlinear_arith);
        }
        let start = c * chunk_len;
        let chunk = vstd::slice::slice_to_vec(
            vstd::slice::slice_subrange(words, start, start + chunk_len),
        );
        chunks.push(chunk);
        c = c + 1;
    }
    proof {
        assert forall|cc: int, k: int|
            0 <= cc < chunks@.len() && 0 <= k < chunk_len implies #[trigger] chunks@[cc]@[k]
            == words@[(cc * chunk_len + k) % (words@.len() as int)] by {
            assert(cc * chunk_len + k < count * chunk_len) by (nonlinear_arith)
                requires
                    0 <= cc < count,
                    0 <= k < chunk_len,
            ;
            lemma_small_mod((cc * chunk_len + k) as nat, n as nat);
        }
    }
    chunks
}

} // verus!
