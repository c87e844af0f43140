use binius64::and_reduction::duplicate_to_fixed_chunks;
use binius64::value_table::Word;

fn words(n: u64) -> Vec<Word> {
    (0..n).map(Word).collect()
}

#[test]
fn long_columns_split_evenly() {
    let chunks = duplicate_to_fixed_chunks(&words(8), 4);
    assert_eq!(chunks, vec![words(4), (4..8).map(Word).collect::<Vec<_>>()]);
}

#[test]
fn short_columns_are_repeated_into_one_chunk() {
    let chunks = duplicate_to_fixed_chunks(&words(2), 8);
    assert_eq!(chunks.len(), 1);
    assert_eq!(
        chunks[0],
        vec![Word(0), Word(1), Word(0), Word(1), Word(0), Word(1), Word(0), Word(1)]
    );
}

#[test]
fn equal_lengths_give_one_chunk() {
    assert_eq!(duplicate_to_fixed_chunks(&words(4), 4), vec![words(4)]);
}
