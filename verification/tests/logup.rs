use binius64::claims::{check_index_column, LogupStarError, OperationClaim};
use binius64::logup_witness::{embed_position, looker_denominator, pushforward, table_denominator};

#[test]
fn test_rejects_index_length_mismatch() {
    // Four looker variables need 2^4 = 16 index entries, not 3.
    let err = check_index_column(3, &[0, 1, 2], 4).unwrap_err();
    assert!(matches!(
        err,
        LogupStarError::IndexLengthMismatch { got: 3, expected: 16, n_vars: 4 }
    ));
}

#[test]
fn index_column_of_the_right_length_is_accepted() {
    assert_eq!(check_index_column(2, &[0, 3], 1), Ok(()));
}

#[test]
fn pushforward_scatters_by_index() {
    let eq_r = [1u128, 2, 4, 8];
    let index = [3usize, 0, 3, 1];
    let y = pushforward(&eq_r, &index, 2);
    assert_eq!(y, vec![2, 8, 0, 1 ^ 4]);
}

#[test]
fn denominators_shift_the_challenge_by_the_embedding() {
    assert_eq!(embed_position(5), 5u128);
    assert_eq!(looker_denominator(0xF0, &[1, 2]), vec![0xF1, 0xF2]);
    assert_eq!(table_denominator(0xF0, 2), vec![0xF0, 0xF1, 0xF2, 0xF3]);
}

#[test]
fn operation_claim_copies_its_points() {
    let claim = OperationClaim::new([1u128, 2, 3], &[4, 5], &[6]);
    assert_eq!(claim.operand_claims, [1, 2, 3]);
    assert_eq!(claim.r_x, vec![4, 5]);
    assert_eq!(claim.r_rho, vec![6]);
}

#[test]
fn pushforward_of_a_short_eq_vector_uses_the_common_rows() {
    // Only the rows present in both inputs contribute.
    let y = pushforward(&[5u128], &[1, 1], 1);
    assert_eq!(y, vec![0, 5]);
}

#[test]
fn pushforward_keeps_the_total() {
    let eq_r: Vec<u128> = vec![3, 5, 9, 17, 0x1234, u128::MAX];
    let index: Vec<usize> = vec![1, 1, 3, 0, 3, 2];
    let y = pushforward(&eq_r, &index, 2);
    assert_eq!(y.iter().fold(0u128, |acc, v| acc ^ v), eq_r.iter().fold(0u128, |acc, v| acc ^ v));
    assert_eq!(y, vec![17, 3 ^ 5, u128::MAX, 9 ^ 0x1234]);
}
