//! The claim records that the reductions hand to one another, and the input validation of the
//! logUp* prover.
use vstd::arithmetic::power2::*;
use vstd::prelude::*;

use crate::round_state::SumcheckError;

verus! {

/// The output of the integer-multiplication reduction: per-bit operand evaluations at one point.
#[derive(Debug, Clone)]
pub struct IntMulOutput<F> {
    pub eval_point: Vec<F>,
    pub a_evals: Vec<F>,
    pub b_evals: Vec<F>,
    pub c_lo_evals: Vec<F>,
    pub c_hi_evals: Vec<F>,
}

/// Output of Phase 1: the evaluation point after the product check and the `2^k` leaf
/// evaluations.
pub struct Phase1Output<F> {
    pub eval_point: Vec<F>,
    pub b_leaves_evals: Vec<F>,
}

/// Output of Phase 2: the twisted evaluation points and the twisted evaluations.
pub struct Phase2Output<F> {
    pub twisted_eval_points: Vec<Vec<F>>,
    pub twisted_evals: Vec<F>,
}

/// Output of Phase 3: the new evaluation point, the recombination point, the recombined exponent
/// claim and the operand evaluations at the new point.
#[derive(Debug, Clone)]
pub struct Phase3Output<F> {
    pub eval_point: Vec<F>,
    pub r_ib: Vec<F>,
    pub b_recomb: F,
    pub gpow_a_eval: F,
    pub gpow_c_lo_eval: F,
    pub gpow_c_hi_eval: F,
}

/// Output of Phase 4: the point at which each tree's all-but-last-layer multilinear is claimed,
/// the selector coordinates that batch the trees, and the combined claimed evaluation.
pub struct Phase4Output<F> {
    pub eval_point: Vec<F>,
    pub selector: Vec<F>,
    pub combined_eval: F,
}

/// Output of the batched shift reduction verification: the bit-index point, the word-index point
/// and the claimed evaluation of the committed batch witness.
#[derive(Debug)]
pub struct BatchVerifyOutput<F> {
    pub r_j: Vec<F>,
    pub r_y: Vec<F>,
    pub witness_eval: F,
}

/// The reduced output claims of a logUp* verification.
#[derive(Debug, Clone)]
pub struct LogupOutput<F> {
    pub table_eval_point: Vec<F>,
    pub table_eval_claim: F,
    pub pushforward_eval_claim: F,
    pub index_eval_point: Vec<F>,
    pub index_eval_claim: F,
}

/// The output of the batched final layer on the verifier side.
pub struct FinalLayer<F> {
    pub table_eval_point: Vec<F>,
    pub table_eval_claim: F,
    pub pushforward_eval_claim: F,
}

/// The evaluation claims that the batched final layer reduces to, on the prover side.
pub struct FinalLayerOutput<F> {
    pub table_eval_point: Vec<F>,
    pub table_eval_claim: F,
    pub pushforward_eval_claim: F,
}

/// One looker's claim on its looked-up vector: `(I_j^* T)(eval_point) = eval_claim`.
#[derive(Debug, Clone)]
pub struct LookerClaim<'a, Elem> {
    pub eval_point: &'a [Elem],
    pub eval_claim: Elem,
}

/// One operation's operand claims and the points they are claimed at.
pub struct OperationClaim<F, const ARITY: usize> {
    pub operand_claims: [F; ARITY],
    pub r_x: Vec<F>,
    pub r_rho: Vec<F>,
}

impl<F: Copy, const ARITY: usize> OperationClaim<F, ARITY> {
    /// The operand claims at the constraint point `r_x` and the instance point `r_rho`.
    pub fn new(operand_claims: [F; ARITY], r_x: &[F], r_rho: &[F]) -> (c: Self)
        ensures
            c.operand_claims == operand_claims,
            c.r_x@ == r_x@,
            c.r_rho@ == r_rho@,
    {
        OperationClaim {
            operand_claims,
            r_x: vstd::slice::slice_to_vec(r_x),
            r_rho: vstd::slice::slice_to_vec(r_rho),
        }
    }
}

/// An error raised while proving a logUp* reduction.
#[derive(Debug, Clone, PartialEq, Eq, Structural)]
pub enum LogupStarError {
    /// A sumcheck sub-protocol was driven out of order.
    Sumcheck(SumcheckError),
    /// The index column does not have one entry per point of the looker cube.
    IndexLengthMismatch { got: usize, expected: usize, n_vars: usize },
}

/// The shape check a logUp* prover runs before any transcript interaction: the table must have at
/// least one variable, and the index column must hold exactly one entry per point of the
/// `n_vars`-variable looker cube.
pub fn check_index_column(table_n_vars: usize, index: &[usize], n_vars: usize) -> (r: Result<
    (),
    LogupStarError,
>)
    requires
        table_n_vars > 0,
        n_vars < usize::BITS,
    ensures
        index@.len() == pow2(n_vars as nat) ==> r == Ok::<(), LogupStarError>(()),
        index@.len() != pow2(n_vars as nat) ==> r == Err::<(), LogupStarError>(
            LogupStarError::IndexLengthMismatch {
                got: index@.len() as usize,
                expected: pow2(n_vars as nat) as usize,
                n_vars,
            },
        ),
{
    proof {
        vstd::bits::lemma_usize_pow2_no_overflow(n_vars as nat);
        vstd::bits::lemma_usize_shl_is_mul(1, n_vars);
    }
    let expected = 1usize << n_vars;
    if index.len() != expected {
        return Err(LogupStarError::IndexLengthMismatch { got: index.len(), expected, n_vars });
    }
    Ok(())
}

/// The coefficients of one round polynomial, lowest degree first.
#[derive(Debug, Clone)]
pub struct RoundCoeffs<F>(pub Vec<F>);

/// A sumcheck prover with a round-by-round execution interface.
///
/// For a prover with `n_vars() == n`, the caller calls `execute` and then `fold` `n` times, and
/// finally `finish`. Each `fold` binds one free variable, so the variable count drops by one; the
/// number of claims stays fixed and is the length of every per-claim result.
pub trait SumcheckProver<F> {
    /// The number of variables in the remaining multivariate polynomial.
    spec fn remaining_vars(&self) -> nat;

    /// The number of claims (composite polynomials) being proved.
    spec fn claim_count(&self) -> nat;

    /// The number of variables in the remaining multivariate polynomial.
    fn n_vars(&self) -> (n: usize)
        ensures
            n == self.remaining_vars(),
    ;

    /// The number of claims (composite polynomials) being proved.
    fn n_claims(&self) -> (n: usize)
        ensures
            n == self.claim_count(),
    ;

    /// The round polynomial for each claim, one per claim.
    fn execute(&mut self) -> (coeffs: Vec<RoundCoeffs<F>>)
        ensures
            coeffs@.len() == old(self).claim_count(),
            final(self).claim_count() == old(self).claim_count(),
            final(self).remaining_vars() == old(self).remaining_vars(),
    ;

    /// The claimed sums for the current round, one per claim.
    fn round_claim(&self) -> (claims: Vec<F>)
        ensures
            claims@.len() == self.claim_count(),
    ;

    /// Binds the next variable to a verifier challenge: one variable fewer remains.
    fn fold(&mut self, challenge: F)
        requires
            old(self).remaining_vars() > 0,
        ensures
            final(self).remaining_vars() == old(self).remaining_vars() - 1,
            final(self).claim_count() == old(self).claim_count(),
    ;

    /// The evaluations of all multilinears at the challenge point.
    fn finish(self) -> Vec<F>;
}

/// A prover for the MLE-check variant of the sumcheck protocol.
pub trait MleCheckProver<F>: SumcheckProver<F> {
    /// The evaluation point for the remaining claim; its length is `n_vars()`.
    fn eval_point(&self) -> (point: &[F])
        ensures
            point@.len() == self.remaining_vars(),
    ;
}

} // verus!
