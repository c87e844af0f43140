use binius64::par_iter::{chunks, collect_into_vec, enumerate, step_by, take, zip, zip_eq, Chain};

#[test]
fn check_zip() {
    let a = &[1, 2, 3];
    let b = &[4, 5, 6];

    let result = zip(a, b);
    assert_eq!(result, vec![(1, 4), (2, 5), (3, 6)]);
}

#[test]
fn check_step_by() {
    let a = &[1, 2, 3, 4, 5, 6, 7, 8, 9, 10];

    let result = step_by(a, 2);
    assert_eq!(result, vec![1, 3, 5, 7, 9]);
}

#[test]
fn check_step_by_range() {
    let a = (1..10).collect::<Vec<i32>>();

    let result = step_by(&a, 2);
    assert_eq!(result, vec![1, 3, 5, 7, 9]);
}

#[test]
fn check_map() {
    let a = &[1, 2, 3];

    let result = binius64::par_iter::map(a, |x| x * 2);
    assert_eq!(result, vec![2, 4, 6]);
}

#[test]
fn check_chain() {
    let a = vec![1, 2, 3];
    let b = vec![4, 5, 6];

    let result = Chain::new(a, b).collect();
    assert_eq!(result, vec![1, 2, 3, 4, 5, 6]);
}

#[test]
fn check_chain_with_map() {
    let a = &[1, 2, 3];
    let b = &[4, 5, 6];

    let result = Chain::new(binius64::par_iter::map(a, |x| x * 2), binius64::par_iter::map(b, |x| x * 3)).collect();
    assert_eq!(result, vec![2, 4, 6, 12, 15, 18]);
}

#[test]
fn check_chain_len() {
    let a = vec![1, 2, 3];
    let b = vec![4, 5, 6, 7];

    let chained = Chain::new(a, b);
    assert_eq!(chained.len(), 7);
}

#[test]
fn check_chain_returns_indexed_parallel_iterator() {
    let a = vec![1, 2, 3];
    let b = vec![4, 5, 6, 7];

    let chained = Chain::new(a, b);

    assert_eq!(chained.len(), 7);

    let c = vec![8, 9];
    let triple_chain = chained.chain(c);
    assert_eq!(triple_chain.len(), 9);

    let result = triple_chain.collect();
    assert_eq!(result, vec![1, 2, 3, 4, 5, 6, 7, 8, 9]);
}

#[test]
fn zip_stops_at_the_shorter_sequence() {
    assert_eq!(zip(&[1, 2, 3], &[7]), vec![(1, 7)]);
}

#[test]
fn zip_eq_pairs_equal_lengths() {
    assert_eq!(zip_eq(vec![1, 2], vec!['a', 'b']), vec![(1, 'a'), (2, 'b')]);
}

#[test]
fn step_by_on_empty_and_exact_multiple() {
    let empty: [u8; 0] = [];
    assert_eq!(step_by(&empty, 3), Vec::<u8>::new());
    assert_eq!(step_by(&[1, 2, 3, 4, 5, 6], 3), vec![1, 4]);
}

#[test]
fn chunks_leave_a_short_last_chunk() {
    assert_eq!(chunks(&[1, 2, 3, 4, 5], 2), vec![vec![1, 2], vec![3, 4], vec![5]]);
    assert_eq!(chunks(&[1, 2, 3, 4], 2).len(), 2);
    let empty: [u8; 0] = [];
    assert!(chunks(&empty, 4).is_empty());
}

#[test]
fn take_and_enumerate() {
    assert_eq!(take(&[5, 6, 7], 2), vec![5, 6]);
    assert_eq!(take(&[5, 6, 7], 10), vec![5, 6, 7]);
    assert_eq!(enumerate(&['x', 'y']), vec![(0, 'x'), (1, 'y')]);
}

#[test]
fn collect_into_vec_replaces_the_target() {
    let mut target = vec![9, 9, 9, 9];
    collect_into_vec(&[1, 2], &mut target);
    assert_eq!(target, vec![1, 2]);
}
