//! The witness of a batch of `2^k` independent instances of one circuit, stored instance-major in
//! one flat buffer of committed words, and the shared public-word segment.
use vstd::arithmetic::power2::*;
use vstd::prelude::*;

use crate::bit_reverse::log2_strict;

verus! {

/// A 64-bit machine word of the constraint system.
#[derive(Debug, Clone, Copy, PartialEq, Eq, Structural)]
pub struct Word(pub u64);

/// The shape of one instance's value vector: the public segment (constants and inout words)
/// comes first and the remaining committed words follow it.
#[derive(Debug, Clone, Copy)]
pub struct ValueVecLayout {
    /// The number of inout (public input/output) words.
    pub n_inout: usize,
    /// The start of the non-public segment, which is also the padded length of the public segment.
    pub offset_witness: usize,
    /// The number of committed words of one instance (public segment included).
    pub committed_total_len: usize,
}

impl ValueVecLayout {
    /// The public segment lies inside the committed words.
    pub open spec fn wf(&self) -> bool {
        self.offset_witness <= self.committed_total_len
    }

    /// The base-2 logarithm of the padded public segment length.
    pub fn log_public_words(&self) -> (k: u32)
        requires
            exists|e: nat| pow2(e) == self.offset_witness,
        ensures
            pow2(k as nat) == self.offset_witness,
            k < usize::BITS,
    {
        log2_strict(self.offset_witness)
    }
}

/// One instance's committed witness, split into its public segment and the remaining words.
#[derive(Debug, Clone)]
pub struct ValueVec {
    pub layout: ValueVecLayout,
    pub public: Vec<Word>,
    pub private: Vec<Word>,
}

impl ValueVec {
    /// The committed words in order: the public segment, then the remaining words.
    pub open spec fn combined(&self) -> Seq<Word> {
        self.public@ + self.private@
    }
}

/// The part of a constraint system that the batch witness and the public segment are built from.
#[derive(Debug, Clone)]
pub struct ConstraintSystem {
    pub value_vec_layout: ValueVecLayout,
    /// The constant words, stored unpadded at the start of the public segment.
    pub constants: Vec<Word>,
}

/// The failure of circuit evaluation for one instance: the failed assertions.
#[derive(Debug, Clone)]
pub struct PopulateError {
    pub total_count: usize,
    pub messages: Vec<String>,
}

/// The failure of a single instance during batch witness population.
#[derive(Debug, Clone)]
pub struct PopulateInstanceError {
    /// The index of the instance that failed.
    pub instance: usize,
    /// The assertion failure raised while evaluating that instance.
    pub source: PopulateError,
}

/// The concatenation of the committed words of every successfully evaluated instance, in order.
pub open spec fn flatten_outcomes(outcomes: Seq<Result<Vec<Word>, PopulateError>>) -> Seq<Word>
    decreases outcomes.len(),
{
    if outcomes.len() == 0 {
        Seq::empty()
    } else {
        flatten_outcomes(outcomes.drop_last()) + match outcomes.last() {
            Ok(words) => words@,
            Err(_) => Seq::empty(),
        }
    }
}

/// The index of the first failed instance, if any instance failed.
pub open spec fn first_failure(outcomes: Seq<Result<Vec<Word>, PopulateError>>) -> Option<int> {
    if exists|i: int| 0 <= i < outcomes.len() && (#[trigger] outcomes[i]) is Err {
        Some(
            choose|i: int|
                0 <= i < outcomes.len() && (#[trigger] outcomes[i]) is Err && forall|j: int|
                    0 <= j < i ==> (#[trigger] outcomes[j]) is Ok,
        )
    } else {
        None
    }
}

/// The batch witness of `2^log_instances` instances sharing one layout, instance-major.
#[derive(Debug, Clone)]
pub struct ValueTable {
    layout: ValueVecLayout,
    log_instances: usize,
    data: Vec<Word>,
}

impl ValueTable {
    /// The per-instance layout.
    pub closed spec fn spec_layout(&self) -> ValueVecLayout {
        self.layout
    }

    /// The base-2 logarithm of the instance count.
    pub closed spec fn spec_log_instances(&self) -> nat {
        self.log_instances as nat
    }

    /// The flat buffer: every instance's committed words, instance-major.
    pub closed spec fn words(&self) -> Seq<Word> {
        self.data@
    }

    /// The committed-word count of one instance.
    pub open spec fn stride(&self) -> nat {
        self.spec_layout().committed_total_len as nat
    }

    /// The number of instances.
    pub open spec fn spec_n_instances(&self) -> nat {
        pow2(self.spec_log_instances())
    }

    /// The committed words of instance `i`.
    pub open spec fn instance_words(&self, i: int) -> Seq<Word> {
        self.words().subrange(i * self.stride(), (i + 1) * self.stride())
    }

    /// The table's shape: the instance count fits a machine word and the buffer holds exactly one
    /// block of `stride` words per instance.
    pub closed spec fn wf(&self) -> bool {
        &&& self.log_instances < usize::BITS
        &&& self.layout.wf()
        &&& self.data@.len() == pow2(self.log_instances as nat) * self.layout.committed_total_len
    }

    /// Assembles the batch witness from the outcome of evaluating each instance.
    ///
    /// Instance `i`'s committed words occupy positions `[i * stride, (i + 1) * stride)` of the
    /// flat buffer. When an instance failed to evaluate, the error reports the index of the first
    /// failed instance together with its failure.
    pub fn populate(
        layout: ValueVecLayout,
        log_instances: usize,
        outcomes: Vec<Result<Vec<Word>, PopulateError>>,
    ) -> (r: Result<Self, PopulateInstanceError>)
        requires
            layout.wf(),
            log_instances < usize::BITS,
            outcomes@.len() == pow2(log_instances as nat),
            pow2(log_instances as nat) * layout.committed_total_len <= usize::MAX,
            forall|i: int|
                0 <= i < outcomes@.len() ==> (#[trigger] outcomes@[i] matches Ok(words)
                    ==> words@.len() == layout.committed_total_len),
        ensures
            first_failure(outcomes@) matches Some(i) ==> (r matches Err(e) && e.instance == i
                && outcomes@[i] == Err::<Vec<Word>, PopulateError>(e.source)),
            first_failure(outcomes@) is None ==> (r matches Ok(t) && t.wf() && t.spec_layout()
                == layout && t.spec_log_instances() == log_instances && t.words()
                == flatten_outcomes(outcomes@)),
    {
        let ghost orig = outcomes@;
        let mut pending = outcomes;
        let n = pending.len();
        let mut i: usize = 0;
        let mut found = false;
        while i < n && !found
            invariant
                i <= n == pending@.len(),
                pending@ == orig,
                found ==> i < n && pending@[i as int] is Err,
                forall|j: int| 0 <= j < i ==> (#[trigger] pending@[j]) is Ok,
                forall|j: int|
                    0 <= j < pending@.len() ==> (#[trigger] pending@[j] matches Ok(words)
                        ==> words@.len() == layout.committed_total_len),
            decreases n - i, if found { 0int } else { 1int },
        {
            if pending[i].is_err() {
                found = true;
            } else {
                i = i + 1;
            }
        }
        if found {
            let failed = pending.swap_remove(i);
            match failed {
                Err(source) => {
                    proof {
                        let k = i as int;
                        assert(orig[k] is Err);
                        assert(exists|j: int| 0 <= j < orig.len() && (#[trigger] orig[j]) is Err);
                        let c = choose|c: int|
                            0 <= c < orig.len() && (#[trigger] orig[c]) is Err && forall|j: int|
                                0 <= j < c ==> (#[trigger] orig[j]) is Ok;
                        assert(0 <= k < orig.len() && orig[k] is Err && forall|j: int|
                            0 <= j < k ==> (#[trigger] orig[j]) is Ok);
                        if c < k {
                            assert(orig[c] is Ok);
                        } else if c > k {
                            assert(orig[k] is Ok);
                        }
                    }
                    return Err(PopulateInstanceError { instance: i, source });
                },
                Ok(_) => {
                    proof {
                        assert(false);
                    }
                    return Err(PopulateInstanceError {
                        instance: i,
                        source: PopulateError { total_count: 0, messages: Vec::new() },
                    });
                },
            }
        }
        let mut data: Vec<Word> = Vec::new();
        let mut k: usize = 0;
        while k < n
            invariant
                k <= n == pending@.len(),
                forall|j: int| 0 <= j < n ==> (#[trigger] pending@[j]) is Ok,
                forall|j: int|
                    0 <= j < pending@.len() ==> (#[trigger] pending@[j] matches Ok(words)
                        ==> words@.len() == layout.committed_total_len),
                data@ == flatten_outcomes(pending@.take(k as int)),
                pending@ == orig,
                data@.len() == k * layout.committed_total_len,
                pow2(log_instances as nat) * layout.committed_total_len <= usize::MAX,
                n == pow2(log_instances as nat),
            decreases n - k,
        {
            match &pending[k] {
                Ok(words) => {
                    let mut w: usize = 0;
                    let ghost start = data@;
                    proof {
                        assert((k + 1) * layout.committed_total_len <= n * layout.committed_total_len)
                            by (nonlinear_arith)
                            requires
                                k < n,
                        ;
                        assert((k + 1) * layout.committed_total_len == k * layout.committed_total_len
                            + layout.committed_total_len) by (nonlinear_arith);
                    }
                    while w < words.len()
                        invariant
                            w <= words@.len(),
                            data@ == start + words@.take(w as int),
                            start.len() + words@.len() <= usize::MAX,
                        decreases words@.len() - w,
                    {
                        data.push(words[w]);
                        proof {
                            assert(words@.take(w as int + 1) =~= words@.take(w as int).push(
                                words@[w as int],
                            ));
                        }
                        w = w + 1;
                    }
                    proof {
                        assert(words@.take(words@.len() as int) =~= words@);
                        assert(pending@.take(k as int + 1).drop_last() =~= pending@.take(k as int));
                    }
                },
                Err(_) => {
                    proof {
                        assert(false);
                    }
                },
            }
            k = k + 1;
        }
        proof {
            assert(pending@.take(n as int) =~= pending@);
            assert(!(exists|j: int| 0 <= j < pending@.len() && (#[trigger] pending@[j]) is Err));
            assert(first_failure(orig) is None);
        }
        Ok(ValueTable { layout, log_instances, data })
    }

    /// The base-2 logarithm of the number of instances.
    pub fn log_instances(&self) -> (k: usize)
        ensures
            k == self.spec_log_instances(),
    {
        self.log_instances
    }

    /// The number of instances in the batch.
    pub fn n_instances(&self) -> (n: usize)
        requires
            self.wf(),
        ensures
            n == self.spec_n_instances(),
    {
        proof {
            vstd::bits::lemma_usize_pow2_no_overflow(self.log_instances as nat);
            vstd::bits::lemma_usize_shl_is_mul(1, self.log_instances);
        }
        1usize << self.log_instances
    }

    /// The per-instance value layout shared by every instance.
    pub fn layout(&self) -> (l: &ValueVecLayout)
        ensures
            *l == self.spec_layout(),
    {
        &self.layout
    }

    /// The number of committed words occupied by a single instance.
    pub fn instance_stride(&self) -> (s: usize)
        ensures
            s == self.stride(),
    {
        self.layout.committed_total_len
    }

    /// The committed words of one instance, in per-instance order.
    pub fn instance(&self, instance: usize) -> (words: &[Word])
        requires
            self.wf(),
            instance < self.spec_n_instances(),
        ensures
            words@ == self.instance_words(instance as int),
            words@.len() == self.stride(),
    {
        let stride = self.layout.committed_total_len;
        let total = self.data.len();
        proof {
            assert((instance + 1) * stride <= pow2(self.log_instances as nat) * stride)
                by (nonlinear_arith)
                requires
                    instance < pow2(self.log_instances as nat),
            ;
            assert((instance + 1) * stride == instance * stride + stride) by (nonlinear_arith);
        }
        let start = instance * stride;
        vstd::slice::slice_subrange(self.data.as_slice(), start, start + stride)
    }

    /// The whole batch as one flat, instance-major word buffer.
    pub fn as_words(&self) -> (words: &[Word])
        ensures
            words@ == self.words(),
    {
        self.data.as_slice()
    }

    /// Reconstructs one instance as a standalone value vector: its public segment and its
    /// remaining committed words.
    pub fn instance_value_vec(&self, instance: usize) -> (vv: ValueVec)
        requires
            self.wf(),
            instance < self.spec_n_instances(),
        ensures
            vv.layout == self.spec_layout(),
            vv.public@ == self.instance_words(instance as int).take(
                self.spec_layout().offset_witness as int,
            ),
            vv.private@ == self.instance_words(instance as int).skip(
                self.spec_layout().offset_witness as int,
            ),
            vv.combined() == self.instance_words(instance as int),
    {
        let words = self.instance(instance);
        let split = self.layout.offset_witness;
        let public = vstd::slice::slice_to_vec(vstd::slice::slice_subrange(words, 0, split));
        let private = vstd::slice::slice_to_vec(
            vstd::slice::slice_subrange(words, split, words.len()),
        );
        proof {
            assert(public@ + private@ =~= words@);
        }
        ValueVec { layout: self.layout, public, private }
    }
}

/// The flat buffer is exactly the instances' committed words concatenated: the word at flat
/// position `p` is word `p % stride` of instance `p / stride`.
pub proof fn lemma_flat_buffer_is_instances_concatenated(t: ValueTable, i: int, w: int)
    requires
        t.wf(),
        0 <= i < t.spec_n_instances(),
        0 <= w < t.stride(),
    ensures
        i * t.stride() + w < t.words().len(),
        t.instance_words(i)[w] == t.words()[i * t.stride() + w],
{
    let s = t.stride() as int;
    let n = t.spec_n_instances() as int;
    assert(i * s + w < n * s) by (nonlinear_arith)
        requires
            0 <= i < n,
            0 <= w < s,
    ;
    assert((i + 1) * s == i * s + s) by (nonlinear_arith);
    assert((i + 1) * s <= n * s) by (nonlinear_arith)
        requires
            0 <= i < n,
            0 <= s,
    ;
    assert(t.words().len() == n * s);
}

/// Every batch instance equals its own single-instance witness: when every instance evaluated
/// to `stride` committed words, the block of the flat buffer that `populate` builds at instance
/// `i` (positions `[i * stride, (i + 1) * stride)`) is exactly instance `i`'s words.
pub proof fn lemma_populated_instance(
    outcomes: Seq<Result<Vec<Word>, PopulateError>>,
    stride: nat,
    i: int,
)
    requires
        forall|j: int| 0 <= j < outcomes.len() ==> (#[trigger] outcomes[j]) is Ok,
        forall|j: int|
            0 <= j < outcomes.len() ==> (#[trigger] outcomes[j] matches Ok(words)
                ==> words@.len() == stride),
        0 <= i < outcomes.len(),
    ensures
        flatten_outcomes(outcomes).len() == outcomes.len() * stride,
        outcomes[i] matches Ok(words) && flatten_outcomes(outcomes).subrange(
            i * stride,
            (i + 1) * stride,
        ) == words@,
    decreases outcomes.len(),
{
    let n = outcomes.len() as int;
    let init = outcomes.drop_last();
    let s = stride as int;
    lemma_flatten_len(outcomes, stride);
    lemma_flatten_len(init, stride);
    assert((n - 1) * s + s == n * s) by (nonlinear_arith);
    assert((i + 1) * s == i * s + s) by (nonlinear_arith);
    if i < n - 1 {
        lemma_populated_instance(init, stride, i);
        assert((i + 1) * s <= (n - 1) * s) by (nonlinear_arith)
            requires
                i < n - 1,
                s >= 0,
        ;
        assert(flatten_outcomes(outcomes).subrange(i * s, (i + 1) * s) =~= flatten_outcomes(
            init,
        ).subrange(i * s, (i + 1) * s));
    } else {
        assert(outcomes.last() == outcomes[i]);
        assert(flatten_outcomes(outcomes).subrange(i * s, (i + 1) * s) =~= (match outcomes[i] {
            Ok(words) => words@,
            Err(_) => Seq::empty(),
        }));
    }
}

/// The flattened buffer holds `stride` words per instance.
proof fn lemma_flatten_len(outcomes: Seq<Result<Vec<Word>, PopulateError>>, stride: nat)
    requires
        forall|j: int| 0 <= j < outcomes.len() ==> (#[trigger] outcomes[j]) is Ok,
        forall|j: int|
            0 <= j < outcomes.len() ==> (#[trigger] outcomes[j] matches Ok(words)
                ==> words@.len() == stride),
    ensures
        flatten_outcomes(outcomes).len() == outcomes.len() * stride,
    decreases outcomes.len(),
{
    if outcomes.len() > 0 {
        let init = outcomes.drop_last();
        lemma_flatten_len(init, stride);
        assert(outcomes.last() == outcomes[outcomes.len() - 1]);
        let n = outcomes.len() as int;
        assert((n - 1) * stride + stride == n * stride) by (nonlinear_arith);
    }
}

/// The public-word segment, zero-padded to its power-of-two layout length: the constants sit at
/// the low positions and the tail is zero.
pub fn padded_public_words(cs: &ConstraintSystem) -> (words: Vec<Word>)
    requires
        cs.value_vec_layout.n_inout == 0,
        exists|e: nat| pow2(e) == cs.value_vec_layout.offset_witness,
        cs.constants@.len() <= cs.value_vec_layout.offset_witness,
    ensures
        words@.len() == cs.value_vec_layout.offset_witness,
        forall|i: int|
            0 <= i < words@.len() ==> #[trigger] words@[i] == if i < cs.constants@.len() {
                cs.constants@[i]
            } else {
                Word(0)
            },
        cs.constants@.len() == cs.value_vec_layout.offset_witness ==> words@ == cs.constants@,
{
    let log_len = cs.value_vec_layout.log_public_words();
    proof {
        vstd::bits::lemma_usize_pow2_no_overflow(log_len as nat);
        vstd::bits::lemma_usize_shl_is_mul(1, log_len as usize);
    }
    let len = 1usize << log_len;
    let mut words: Vec<Word> = Vec::new();
    let mut i: usize = 0;
    while i < len
        invariant
            i <= len == cs.value_vec_layout.offset_witness,
            cs.constants@.len() <= len,
            words@.len() == i,
            forall|k: int|
                0 <= k < i ==> #[trigger] words@[k] == if k < cs.constants@.len() {
                    cs.constants@[k]
                } else {
                    Word(0)
                },
        decreases len - i,
    {
        if i < cs.constants.len() {
            words.push(cs.constants[i]);
        } else {
            words.push(Word(0));
        }
        i = i + 1;
    }
    proof {
        if cs.constants@.len() == len {
            assert(words@ =~= cs.constants@);
        }
    }
    words
}

} // verus!
