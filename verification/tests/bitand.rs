use binius64::bitand::{
    eval_operand_words, eval_shifted_word, AndConstraint, BatchAndCheckWitness, ShiftVariant,
    ShiftedValueIndex, ValueIndex,
};
use binius64::value_table::{ValueTable, ValueVecLayout, Word};

fn term(index: u32, shift_variant: ShiftVariant, amount: usize) -> ShiftedValueIndex {
    ShiftedValueIndex { value_index: ValueIndex(index), shift_variant, amount }
}

fn plain(index: u32) -> ShiftedValueIndex {
    term(index, ShiftVariant::Sll, 0)
}

// Each instance commits x, y, w, and = x & y at positions 0..4.
fn table(inputs: &[(u64, u64, u64)]) -> ValueTable {
    let layout = ValueVecLayout { n_inout: 0, offset_witness: 0, committed_total_len: 4 };
    let outcomes = inputs
        .iter()
        .map(|&(x, y, w)| Ok(vec![Word(x), Word(y), Word(w), Word(x & y)]))
        .collect();
    ValueTable::populate(layout, inputs.len().ilog2() as usize, outcomes).unwrap()
}

// The AND gate `and = x & y`, plus an empty padding constraint.
fn constraints() -> Vec<AndConstraint> {
    vec![
        AndConstraint { a: vec![plain(0)], b: vec![plain(1)], c: vec![plain(3)] },
        AndConstraint { a: vec![], b: vec![], c: vec![] },
    ]
}

#[test]
fn columns_are_instance_major_with_the_expected_shape() {
    let inputs = [(1, 3, 7), (5, 6, 0), (9, 12, 0xFF), (0xABCD, 0x0F0F, 0x1234)];
    let t = table(&inputs);
    let cs = constraints();
    let witness = BatchAndCheckWitness::build(&t, &cs);
    assert_eq!(witness.a().len(), 8);
    assert_eq!(witness.b().len(), 8);
    assert_eq!(witness.c().len(), 8);
    for (instance, &(x, y, _)) in inputs.iter().enumerate() {
        assert_eq!(witness.a()[2 * instance], Word(x));
        assert_eq!(witness.b()[2 * instance], Word(y));
        assert_eq!(witness.c()[2 * instance], Word(x & y));
        assert_eq!(witness.a()[2 * instance + 1], Word(0));
    }
}

#[test]
fn and_relation_holds_on_every_row() {
    let t = table(&[(1, 3, 7), (5, 6, 0), (9, 12, 0xFF), (0xF0, 0x0F, 1)]);
    let (a, b, c) = BatchAndCheckWitness::build(&t, &constraints()).into_columns();
    for ((a, b), c) in a.iter().zip(&b).zip(&c) {
        assert_eq!(a.0 & b.0, c.0);
    }
}

#[test]
fn shifts_follow_their_variants() {
    let w = Word(0x8000_0000_0000_0001);
    assert_eq!(eval_shifted_word(w, ShiftVariant::Sll, 1), Word(0x2));
    assert_eq!(eval_shifted_word(w, ShiftVariant::Slr, 1), Word(0x4000_0000_0000_0000));
    assert_eq!(eval_shifted_word(w, ShiftVariant::Sar, 1), Word(0xC000_0000_0000_0000));
    assert_eq!(eval_shifted_word(w, ShiftVariant::Rotr, 1), Word(0xC000_0000_0000_0000));
    assert_eq!(eval_shifted_word(w, ShiftVariant::Rotr, 0), w);
    assert_eq!(eval_shifted_word(Word(0x10), ShiftVariant::Rotr, 4), Word(1));
}

#[test]
fn operands_xor_their_shifted_terms() {
    let words = [Word(0b1010), Word(0b0110)];
    let operand = [plain(0), term(1, ShiftVariant::Slr, 1)];
    assert_eq!(eval_operand_words(&words, &operand), Word(0b1010 ^ 0b0011));
    assert_eq!(eval_operand_words(&words, &[]), Word(0));
}

#[test]
fn single_instance_batch_matches_the_reference() {
    let t = table(&[(0xABCD, 0x0F0F, 0x55)]);
    let cs = constraints();
    let witness = BatchAndCheckWitness::build(&t, &cs);
    let vv = t.instance_value_vec(0);
    let words: Vec<Word> = vv.public.iter().chain(vv.private.iter()).copied().collect();
    let a_ref: Vec<Word> = cs.iter().map(|c| eval_operand_words(&words, &c.a)).collect();
    let b_ref: Vec<Word> = cs.iter().map(|c| eval_operand_words(&words, &c.b)).collect();
    let c_ref: Vec<Word> = cs.iter().map(|c| eval_operand_words(&words, &c.c)).collect();
    assert_eq!(witness.a(), a_ref.as_slice());
    assert_eq!(witness.b(), b_ref.as_slice());
    assert_eq!(witness.c(), c_ref.as_slice());
}
