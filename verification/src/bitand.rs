//! The operand columns of the batched BitAnd check, evaluated from a populated batch witness.
//!
//! An AND constraint has three operands; each operand is a XOR of shifted committed words. The
//! check enforces `A & B == C` row by row, one row per constraint and instance, instance-major:
//! `row = instance * n_and + local_constraint`.
use vstd::arithmetic::div_mod::*;
use vstd::arithmetic::power2::*;
use vstd::prelude::*;

use crate::value_table::{ValueTable, Word};

verus! {

/// How a committed word is shifted before it enters an operand.
#[derive(Debug, Clone, Copy, PartialEq, Eq, Structural)]
pub enum ShiftVariant {
    /// Logical shift left.
    Sll,
    /// Logical shift right.
    Slr,
    /// Arithmetic shift right (the sign bit fills in from the top).
    Sar,
    /// Rotation right.
    Rotr,
}

/// The index of a word in one instance's committed words.
#[derive(Debug, Clone, Copy, PartialEq, Eq, Structural)]
pub struct ValueIndex(pub u32);

/// One term of an operand: a committed word, shifted.
#[derive(Debug, Clone, Copy, PartialEq, Eq, Structural)]
pub struct ShiftedValueIndex {
    pub value_index: ValueIndex,
    pub shift_variant: ShiftVariant,
    pub amount: usize,
}

/// An AND constraint `a & b == c`; each operand is the XOR of its shifted terms.
#[derive(Debug, Clone)]
pub struct AndConstraint {
    pub a: Vec<ShiftedValueIndex>,
    pub b: Vec<ShiftedValueIndex>,
    pub c: Vec<ShiftedValueIndex>,
}

/// Bit `i` of a word.
pub open spec fn word_bit(w: u64, i: u64) -> bool {
    (w >> i) & 1 == 1
}

/// A word shifted by `amount` (below 64) according to `variant`.
pub open spec fn shifted_word(w: u64, variant: ShiftVariant, amount: u64) -> u64 {
    match variant {
        ShiftVariant::Sll => w << amount,
        ShiftVariant::Slr => w >> amount,
        ShiftVariant::Sar => ((w as i64) >> amount) as u64,
        ShiftVariant::Rotr => if amount == 0 {
            w
        } else {
            (w >> amount) | (w << (64 - amount) as u64)
        },
    }
}

/// The input bit read by output bit `i` of a shift: `sll` reads bit `i - s` (zero below `s`),
/// `srl` reads bit `i + s` (zero past the top), `sra` reads bit `min(i + s, 63)`, and `rotr`
/// reads bit `(i + s) mod 64`.
pub open spec fn shifted_bit(w: u64, variant: ShiftVariant, amount: u64, i: u64) -> bool {
    match variant {
        ShiftVariant::Sll => i >= amount && word_bit(w, (i - amount) as u64),
        ShiftVariant::Slr => i + amount < 64 && word_bit(w, (i + amount) as u64),
        ShiftVariant::Sar => word_bit(
            w,
            if i + amount < 64 {
                (i + amount) as u64
            } else {
                63
            },
        ),
        ShiftVariant::Rotr => word_bit(w, ((i + amount) % 64) as u64),
    }
}

/// Every output bit of a shifted word is the input bit the shift indicator selects.
pub proof fn lemma_shifted_word_bits(w: u64, variant: ShiftVariant, amount: u64, i: u64)
    requires
        amount < 64,
        i < 64,
    ensures
        word_bit(shifted_word(w, variant, amount), i) == shifted_bit(w, variant, amount, i),
{
    match variant {
        ShiftVariant::Sll => {
            assert(((w << amount) >> i) & 1 == 1 <==> (i >= amount && (w >> ((i - amount) as u64))
                & 1 == 1)) by (bit_vector)
                requires
                    amount < 64,
                    i < 64,
            ;
        },
        ShiftVariant::Slr => {
            assert(((w >> amount) >> i) & 1 == 1 <==> (i + amount < 64 && (w >> ((i + amount) as u64))
                & 1 == 1)) by (bit_vector)
                requires
                    amount < 64,
                    i < 64,
            ;
        },
        ShiftVariant::Sar => {
            assert(((((w as i64) >> amount) as u64) >> i) & 1 == 1 <==> (w >> (if i + amount < 64 {
                (i + amount) as u64
            } else {
                63u64
            })) & 1 == 1) by (bit_vector)
                requires
                    amount < 64,
                    i < 64,
            ;
        },
        ShiftVariant::Rotr => {
            if amount == 0 {
                assert((i + 0) % 64 == i);
            } else {
                assert((((w >> amount) | (w << ((64 - amount) as u64))) >> i) & 1 == 1 <==> (w >> (((
                i + amount) % 64) as u64)) & 1 == 1) by (bit_vector)
                    requires
                        0 < amount < 64,
                        i < 64,
                ;
            }
        },
    }
}

/// Shifts a word by `amount` (below 64) according to `variant`.
pub fn eval_shifted_word(word: Word, variant: ShiftVariant, amount: usize) -> (r: Word)
    requires
        amount < 64,
    ensures
        r.0 == shifted_word(word.0, variant, amount as u64),
{
    let w = word.0;
    let a = amount as u64;
    match variant {
        ShiftVariant::Sll => Word(w << a),
        ShiftVariant::Slr => Word(w >> a),
        ShiftVariant::Sar => Word(((w as i64) >> a) as u64),
        ShiftVariant::Rotr => {
            if a == 0 {
                Word(w)
            } else {
                Word((w >> a) | (w << (64 - a)))
            }
        },
    }
}

/// The terms of an operand address only words of the instance and shift by less than 64.
pub open spec fn operand_in_range(operand: Seq<ShiftedValueIndex>, n_words: nat) -> bool {
    forall|t: int|
        0 <= t < operand.len() ==> (#[trigger] operand[t]).value_index.0 < n_words
            && operand[t].amount < 64
}

/// The value of an operand over one instance's words: the XOR of its shifted terms, in order.
pub open spec fn eval_operand(words: Seq<Word>, operand: Seq<ShiftedValueIndex>) -> u64
    decreases operand.len(),
{
    if operand.len() == 0 {
        0
    } else {
        let sv = operand.last();
        eval_operand(words, operand.drop_last()) ^ shifted_word(
            words[sv.value_index.0 as int].0,
            sv.shift_variant,
            sv.amount as u64,
        )
    }
}

/// Evaluates one operand against a single instance's committed words.
pub fn eval_operand_words(words: &[Word], operand: &[ShiftedValueIndex]) -> (r: Word)
    requires
        operand_in_range(operand@, words@.len()),
    ensures
        r.0 == eval_operand(words@, operand@),
{
    let mut acc: u64 = 0;
    let mut t: usize = 0;
    while t < operand.len()
        invariant
            t <= operand@.len(),
            operand_in_range(operand@, words@.len()),
            acc == eval_operand(words@, operand@.take(t as int)),
        decreases operand@.len() - t,
    {
        let sv = operand[t];
        proof {
            assert(operand@[t as int].value_index.0 < words@.len());
        }
        let word = words[sv.value_index.0 as usize];
        let shifted = eval_shifted_word(word, sv.shift_variant, sv.amount);
        acc = acc ^ shifted.0;
        proof {
            assert(operand@.take(t as int + 1).drop_last() =~= operand@.take(t as int));
        }
        t = t + 1;
    }
    proof {
        assert(operand@.take(operand@.len() as int) =~= operand@);
    }
    Word(acc)
}

/// The empty operand is zero, and appending a term XORs that term's value, on its own, into the
/// operand: an operand is the XOR of its terms evaluated one by one.
pub proof fn lemma_eval_operand_push(
    words: Seq<Word>,
    ops: Seq<ShiftedValueIndex>,
    t: ShiftedValueIndex,
)
    ensures
        eval_operand(words, Seq::empty()) == 0,
        eval_operand(words, ops.push(t)) == eval_operand(words, ops) ^ eval_operand(words, seq![t]),
{
    assert(ops.push(t).drop_last() =~= ops);
    assert(seq![t].drop_last() =~= Seq::<ShiftedValueIndex>::empty());
    let v = shifted_word(words[t.value_index.0 as int].0, t.shift_variant, t.amount as u64);
    assert(0u64 ^ v == v) by (bit_vector);
}

/// Bit `i` of a one-term operand, in terms of the bits of the term's word `w` and its shift
/// amount `s`: `sll` reads bit `i - s` (zero below `s`), `srl` reads bit `i + s` (zero past the
/// top), `sar` reads bit `i + s` and repeats the sign bit 63 past the top, and `rotr` reads bit
/// `(i + s) mod 64`.
pub proof fn lemma_single_term_operand_bits(words: Seq<Word>, t: ShiftedValueIndex, i: u64)
    requires
        t.value_index.0 < words.len(),
        t.amount < 64,
        i < 64,
    ensures
        ({
            let w = words[t.value_index.0 as int].0;
            let s = t.amount as u64;
            let r = eval_operand(words, seq![t]);
            ((r >> i) & 1 == 1) == match t.shift_variant {
                ShiftVariant::Sll => i >= s && (w >> ((i - s) as u64)) & 1 == 1,
                ShiftVariant::Slr => i + s < 64 && (w >> ((i + s) as u64)) & 1 == 1,
                ShiftVariant::Sar => (w >> (if i + s < 64 {
                    (i + s) as u64
                } else {
                    63u64
                })) & 1 == 1,
                ShiftVariant::Rotr => (w >> (((i + s) % 64) as u64)) & 1 == 1,
            }
        }),
{
    lemma_eval_operand_push(words, Seq::empty(), t);
    assert(Seq::<ShiftedValueIndex>::empty().push(t) =~= seq![t]);
    assert(seq![t].drop_last() =~= Seq::<ShiftedValueIndex>::empty());
    let w = words[t.value_index.0 as int].0;
    let v = shifted_word(w, t.shift_variant, t.amount as u64);
    assert(0u64 ^ v == v) by (bit_vector);
    assert(eval_operand(words, seq![t]) == v);
    lemma_shifted_word_bits(w, t.shift_variant, t.amount as u64, i);
}

/// Every operand of every constraint stays inside one instance's committed words.
pub open spec fn constraints_in_range(cs: Seq<AndConstraint>, n_words: nat) -> bool {
    forall|j: int|
        0 <= j < cs.len() ==> operand_in_range((#[trigger] cs[j]).a@, n_words)
            && operand_in_range(cs[j].b@, n_words) && operand_in_range(cs[j].c@, n_words)
}

/// Which operand of a constraint a column holds.
pub open spec fn operand_of(c: AndConstraint, which: int) -> Seq<ShiftedValueIndex> {
    if which == 0 {
        c.a@
    } else if which == 1 {
        c.b@
    } else {
        c.c@
    }
}

/// Row `row` of operand column `which`: that operand of constraint `row % n_and`, evaluated over
/// the words of instance `row / n_and`.
pub open spec fn column_row(
    table: ValueTable,
    cs: Seq<AndConstraint>,
    which: int,
    row: int,
) -> Word {
    let n_and = cs.len() as int;
    Word(eval_operand(table.instance_words(row / n_and), operand_of(cs[row % n_and], which)))
}

/// Row `i * n_and + j` of each column holds the matching operand of constraint `j` (and of no
/// other constraint) evaluated over the words of instance `i`.
pub proof fn lemma_column_row_instance_major(
    table: ValueTable,
    cs: Seq<AndConstraint>,
    i: int,
    j: int,
)
    requires
        0 <= i,
        0 <= j < cs.len(),
    ensures
        column_row(table, cs, 0, i * cs.len() + j) == Word(
            eval_operand(table.instance_words(i), cs[j].a@),
        ),
        column_row(table, cs, 1, i * cs.len() + j) == Word(
            eval_operand(table.instance_words(i), cs[j].b@),
        ),
        column_row(table, cs, 2, i * cs.len() + j) == Word(
            eval_operand(table.instance_words(i), cs[j].c@),
        ),
{
    lemma_fundamental_div_mod_converse(i * cs.len() + j, cs.len() as int, i, j);
}

/// The operand columns of the BitAnd check for a whole batch of instances.
#[derive(Debug, Clone)]
pub struct BatchAndCheckWitness {
    a: Vec<Word>,
    b: Vec<Word>,
    c: Vec<Word>,
}

impl BatchAndCheckWitness {
    /// Operand column `which` (0 for `A`, 1 for `B`, 2 for `C`).
    pub closed spec fn column(&self, which: int) -> Seq<Word> {
        if which == 0 {
            self.a@
        } else if which == 1 {
            self.b@
        } else {
            self.c@
        }
    }

    /// Builds the batched BitAnd witness: every AND constraint evaluated against every
    /// instance's committed words, `K * n_and` rows laid out instance-major.
    pub fn build(table: &ValueTable, and_constraints: &[AndConstraint]) -> (w: Self)
        requires
            table.wf(),
            exists|e: nat| pow2(e) == and_constraints@.len(),
            table.spec_n_instances() * and_constraints@.len() <= usize::MAX,
            constraints_in_range(and_constraints@, table.stride()),
        ensures
            forall|which: int|
                0 <= which < 3 ==> (#[trigger] w.column(which)).len()
                    == table.spec_n_instances() * and_constraints@.len(),
            forall|which: int, row: int|
                0 <= which < 3 && 0 <= row < table.spec_n_instances() * and_constraints@.len()
                    ==> #[trigger] w.column(which)[row] == column_row(
                    *table,
                    and_constraints@,
                    which,
                    row,
                ),
            forall|i: int, j: int|
                #![trigger table.instance_words(i), and_constraints@[j]]
                0 <= i < table.spec_n_instances() && 0 <= j < and_constraints@.len() ==> {
                    let row = i * and_constraints@.len() + j;
                    let words = table.instance_words(i);
                    &&& w.column(0)[row] == Word(eval_operand(words, and_constraints@[j].a@))
                    &&& w.column(1)[row] == Word(eval_operand(words, and_constraints@[j].b@))
                    &&& w.column(2)[row] == Word(eval_operand(words, and_constraints@[j].c@))
                },
    {
        let n_and = and_constraints.len();
        let n_instances = table.n_instances();
        let ghost cs = and_constraints@;
        let ghost na = n_and as int;
        proof {
            let e = choose|e: nat| pow2(e) == and_constraints@.len();
            lemma_pow2_pos(e);
        }
        let mut a: Vec<Word> = Vec::new();
        let mut b: Vec<Word> = Vec::new();
        let mut c: Vec<Word> = Vec::new();
        let mut instance: usize = 0;
        while instance < n_instances
            invariant
                na == n_and == cs.len() > 0,
                cs == and_constraints@,
                table.wf(),
                n_instances == table.spec_n_instances(),
                n_instances * n_and <= usize::MAX,
                constraints_in_range(cs, table.stride()),
                instance <= n_instances,
                a@.len() == instance * na,
                b@.len() == instance * na,
                c@.len() == instance * na,
                forall|row: int| 0 <= row < a@.len() ==> #[trigger] a@[row] == column_row(*table, cs, 0, row),
                forall|row: int| 0 <= row < b@.len() ==> #[trigger] b@[row] == column_row(*table, cs, 1, row),
                forall|row: int| 0 <= row < c@.len() ==> #[trigger] c@[row] == column_row(*table, cs, 2, row),
            decreases n_instances - instance,
        {
            let words = table.instance(instance);
            let mut j: usize = 0;
            while j < n_and
                invariant
                    na == n_and == cs.len() > 0,
                    cs == and_constraints@,
                    table.wf(),
                    instance < n_instances == table.spec_n_instances(),
                    n_instances * n_and <= usize::MAX,
                    constraints_in_range(cs, table.stride()),
                    words@ == table.instance_words(instance as int),
                    words@.len() == table.stride(),
                    j <= n_and,
                    a@.len() == instance * na + j,
                    b@.len() == instance * na + j,
                    c@.len() == instance * na + j,
                    forall|row: int| 0 <= row < a@.len() ==> #[trigger] a@[row] == column_row(*table, cs, 0, row),
                    forall|row: int| 0 <= row < b@.len() ==> #[trigger] b@[row] == column_row(*table, cs, 1, row),
                    forall|row: int| 0 <= row < c@.len() ==> #[trigger] c@[row] == column_row(*table, cs, 2, row),
                decreases n_and - j,
            {
                let ghost row = instance * na + j;
                proof {
                    assert((instance + 1) * na <= n_instances * na) by (nonlinear_arith)
                        requires
                            instance < n_instances,
                            na > 0,
                    ;
                    assert((instance + 1) * na == instance * na + na) by (nonlinear_arith);
                    lemma_fundamental_div_mod_converse(row, na, instance as int, j as int);
                    assert(operand_in_range(cs[j as int].a@, table.stride()));
                }
                let constraint = &and_constraints[j];
                let va = eval_operand_words(words, constraint.a.as_slice());
                let vb = eval_operand_words(words, constraint.b.as_slice());
                let vc = eval_operand_words(words, constraint.c.as_slice());
                a.push(va);
                b.push(vb);
                c.push(vc);
                j = j + 1;
            }
            proof {
                assert((instance + 1) * na == instance * na + na) by (nonlinear_arith);
            }
            instance = instance + 1;
        }
        proof {
            assert forall|i: int, j: int|
                #![trigger table.instance_words(i), cs[j]]
                0 <= i < n_instances && 0 <= j < na implies {
                let row = i * na + j;
                let words = table.instance_words(i);
                &&& a@[row] == Word(eval_operand(words, cs[j].a@))
                &&& b@[row] == Word(eval_operand(words, cs[j].b@))
                &&& c@[row] == Word(eval_operand(words, cs[j].c@))
            } by {
                lemma_column_row_instance_major(*table, cs, i, j);
                assert(i * na + j < n_instances * na) by (nonlinear_arith)
                    requires
                        0 <= i < n_instances,
                        0 <= j < na,
                ;
            }
        }
        BatchAndCheckWitness { a, b, c }
    }

    /// Operand `A` column, `K * n_and` rows in instance-major order.
    pub fn a(&self) -> (col: &[Word])
        ensures
            col@ == self.column(0),
    {
        self.a.as_slice()
    }

    /// Operand `B` column, `K * n_and` rows in instance-major order.
    pub fn b(&self) -> (col: &[Word])
        ensures
            col@ == self.column(1),
    {
        self.b.as_slice()
    }

    /// Operand `C` column, `K * n_and` rows in instance-major order.
    pub fn c(&self) -> (col: &[Word])
        ensures
            col@ == self.column(2),
    {
        self.c.as_slice()
    }

    /// Consumes the witness into its three operand columns `(A, B, C)`.
    pub fn into_columns(self) -> (cols: (Vec<Word>, Vec<Word>, Vec<Word>))
        ensures
            cols.0@ == self.column(0),
            cols.1@ == self.column(1),
            cols.2@ == self.column(2),
    {
        (self.a, self.b, self.c)
    }
}

} // verus!
