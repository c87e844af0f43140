use binius64::round_state::{RoundState, SumcheckError};

#[test]
fn claim_state_gives_the_claim() {
    let s: RoundState<Vec<u8>, u32> = RoundState::Claim(7);
    assert_eq!(s.claim(), Ok(&7));
    assert_eq!(s.coeffs(), Err(SumcheckError::ExpectedExecute));
    assert_eq!(s.unfinished_err(), SumcheckError::ExpectedExecute);
}

#[test]
fn coeffs_state_gives_the_coeffs() {
    let s: RoundState<Vec<u8>, u32> = RoundState::Coeffs(vec![1, 2]);
    assert_eq!(s.coeffs(), Ok(&vec![1, 2]));
    assert_eq!(s.claim(), Err(SumcheckError::ExpectedFold));
    assert_eq!(s.unfinished_err(), SumcheckError::ExpectedFold);
}
