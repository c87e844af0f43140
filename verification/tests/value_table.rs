use binius64::value_table::{
    padded_public_words, ConstraintSystem, PopulateError, ValueTable, ValueVecLayout, Word,
};

fn layout() -> ValueVecLayout {
    // One constant word, padded to a public segment of 2, then two witness words.
    ValueVecLayout { n_inout: 0, offset_witness: 2, committed_total_len: 4 }
}

fn instance_words(i: u64) -> Vec<Word> {
    vec![Word(0xc0), Word(0), Word(i), Word(i + 1)]
}

#[test]
fn shape_and_instances() {
    let outcomes = (0..8).map(|i| Ok(instance_words(i))).collect();
    let table = ValueTable::populate(layout(), 3, outcomes).unwrap();
    assert_eq!(table.log_instances(), 3);
    assert_eq!(table.n_instances(), 8);
    assert_eq!(table.instance_stride(), 4);
    assert_eq!(table.as_words().len(), 32);
    assert_eq!(table.instance(5), instance_words(5).as_slice());
}

#[test]
fn flat_buffer_is_instances_concatenated() {
    let outcomes = (0..4).map(|i| Ok(instance_words(i))).collect();
    let table = ValueTable::populate(layout(), 2, outcomes).unwrap();
    let stride = table.instance_stride();
    for i in 0..table.n_instances() {
        let from_flat = &table.as_words()[i * stride..(i + 1) * stride];
        assert_eq!(table.instance(i), from_flat);
    }
}

#[test]
fn single_instance_batch_is_degenerate_but_valid() {
    let table = ValueTable::populate(layout(), 0, vec![Ok(instance_words(9))]).unwrap();
    assert_eq!(table.n_instances(), 1);
    assert_eq!(table.instance(0), instance_words(9).as_slice());
}

#[test]
fn unsatisfiable_instance_reports_its_index() {
    let failure = PopulateError { total_count: 1, messages: vec!["z_eq_x_and_y".to_string()] };
    let outcomes = vec![
        Ok(instance_words(0)),
        Ok(instance_words(1)),
        Err(failure.clone()),
        Err(PopulateError { total_count: 2, messages: vec![] }),
    ];
    let err = ValueTable::populate(layout(), 2, outcomes).unwrap_err();
    assert_eq!(err.instance, 2);
    assert_eq!(err.source.total_count, 1);
    assert_eq!(err.source.messages, vec!["z_eq_x_and_y".to_string()]);
}

#[test]
fn instance_value_vec_splits_at_the_witness_offset() {
    let outcomes = (0..2).map(|i| Ok(instance_words(i))).collect();
    let table = ValueTable::populate(layout(), 1, outcomes).unwrap();
    let vv = table.instance_value_vec(1);
    assert_eq!(vv.public, vec![Word(0xc0), Word(0)]);
    assert_eq!(vv.private, vec![Word(1), Word(2)]);
}

#[test]
fn public_words_are_zero_padded() {
    let cs = ConstraintSystem {
        value_vec_layout: ValueVecLayout { n_inout: 0, offset_witness: 4, committed_total_len: 8 },
        constants: vec![Word(5), Word(6), Word(7)],
    };
    assert_eq!(padded_public_words(&cs), vec![Word(5), Word(6), Word(7), Word(0)]);
}

#[test]
fn public_words_need_no_padding_when_full() {
    let cs = ConstraintSystem {
        value_vec_layout: ValueVecLayout { n_inout: 0, offset_witness: 2, committed_total_len: 2 },
        constants: vec![Word(1), Word(2)],
    };
    assert_eq!(padded_public_words(&cs), vec![Word(1), Word(2)]);
}
