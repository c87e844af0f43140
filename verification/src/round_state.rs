//! The round-by-round call discipline of sumcheck-style provers.
use vstd::prelude::*;

verus! {

/// Errors raised when a sumcheck-style prover is driven in the wrong order.
#[derive(Debug, Clone, Copy, PartialEq, Eq, Structural)]
pub enum SumcheckError {
    /// A reduction (fold) step was expected, but a round polynomial was requested.
    ExpectedFold,
    /// A round polynomial (execute) was expected, but a reduction was requested.
    ExpectedExecute,
}

/// The value a sumcheck-style prover carries between two consecutive protocol phases.
///
/// A prover alternates between two phases, once per variable:
/// - producing the round polynomial(s) for the variable being bound,
/// - reducing them with the verifier challenge to the claim(s) for the next variable.
///
/// A prover holds exactly one of the two at any time.
#[derive(Debug, Clone)]
pub enum RoundState<Coeffs, Claim> {
    /// Round polynomial(s) already produced for this variable, awaiting the reduction step.
    Coeffs(Coeffs),
    /// Claim(s) awaiting the next round polynomial(s): the initial claim, or a reduction result.
    Claim(Claim),
}

impl<Coeffs, Claim> RoundState<Coeffs, Claim> {
    /// Borrows the carried claim, needed to start producing this round's polynomial(s).
    ///
    /// Fails with `ExpectedFold` when the prover still holds an unreduced round polynomial.
    pub fn claim(&self) -> (r: Result<&Claim, SumcheckError>)
        ensures
            match *self {
                RoundState::Claim(c) => r == Ok::<&Claim, SumcheckError>(&c),
                RoundState::Coeffs(_) => r == Err::<&Claim, SumcheckError>(
                    SumcheckError::ExpectedFold,
                ),
            },
    {
        match self {
            RoundState::Claim(claim) => Ok(claim),
            RoundState::Coeffs(_) => Err(SumcheckError::ExpectedFold),
        }
    }

    /// Borrows this round's polynomial(s), needed to start the reduction step.
    ///
    /// Fails with `ExpectedExecute` when the prover instead holds a claim.
    pub fn coeffs(&self) -> (r: Result<&Coeffs, SumcheckError>)
        ensures
            match *self {
                RoundState::Coeffs(c) => r == Ok::<&Coeffs, SumcheckError>(&c),
                RoundState::Claim(_) => r == Err::<&Coeffs, SumcheckError>(
                    SumcheckError::ExpectedExecute,
                ),
            },
    {
        match self {
            RoundState::Coeffs(coeffs) => Ok(coeffs),
            RoundState::Claim(_) => Err(SumcheckError::ExpectedExecute),
        }
    }

    /// The error to raise when the protocol is told to finish while variables still remain: the
    /// call the prover is still waiting for.
    pub fn unfinished_err(&self) -> (e: SumcheckError)
        ensures
            e == owed_call(*self),
    {
        match self {
            RoundState::Coeffs(_) => SumcheckError::ExpectedFold,
            RoundState::Claim(_) => SumcheckError::ExpectedExecute,
        }
    }
}

/// The call a prover in state `s` is waiting for, as the error the opposite call raises.
pub open spec fn owed_call<Coeffs, Claim>(s: RoundState<Coeffs, Claim>) -> SumcheckError {
    match s {
        RoundState::Coeffs(_) => SumcheckError::ExpectedFold,
        RoundState::Claim(_) => SumcheckError::ExpectedExecute,
    }
}

/// A prover holds exactly one of a claim and round coefficients: exactly one of `claim()` and
/// `coeffs()` succeeds, and the one that fails raises the same error that `unfinished_err()`
/// reports for the call still owed.
pub proof fn lemma_exactly_one_phase<Coeffs, Claim>(s: RoundState<Coeffs, Claim>)
    ensures
        (s is Claim) != (s is Coeffs),
        s is Claim ==> owed_call(s) == SumcheckError::ExpectedExecute,
        s is Coeffs ==> owed_call(s) == SumcheckError::ExpectedFold,
{
}

} // verus!
