//! Checks of a proof at its evaluation point, outside the trace domain.
use p3_circle::CircleDomain;
use p3_commit::PolynomialSpace;
use p3_field::extension::BinomialExtensionField;
use p3_field::{BasedVectorSpace, PrimeField32};
use p3_mersenne_31::Mersenne31;
use vstd::prelude::*;

use crate::agg_constraints::AGG_WIDTH;
use crate::bits::exp2;
use crate::circle::{circle_generator, v_n};
use crate::deep_ro_native::{projective_denominator, projective_point, try_from_projective_line};
use crate::ext::{ebase, edouble, eone, esquare, esub, ezero, Challenge, Ext};
use crate::fri_fs_replay::{
    is_replay, params_ok, replay_fri_challenges, replay_report, AggFriChallenges, ReplayError,
};
use crate::pcs_view::{FriParamsView, StarkProofView};
use crate::val_mmcs::EF_DIM;

verus! {

/// Why the constraints do not hold at the evaluation point.
#[derive(Debug, Clone, PartialEq, Eq)]
pub enum OodError {
    Replay(ReplayError),
    /// The trace domain is larger than the field has, or is a single row.
    Domain,
    /// The evaluation point has no circle point.
    Pole,
    /// The evaluation point lies on the trace domain.
    OnTraceDomain,
    ChunkCount(usize),
    ChunkWidth,
    MissingTraceNext,
    /// The folded constraints are not the quotient times the vanishing polynomial.
    Mismatch,
}

/// The vanishing polynomial of the standard coset of size `2^log_n` at an abscissa of the
/// extension.
pub open spec fn ext_v_n(x: Ext, log_n: nat) -> Ext
    decreases log_n,
{
    if log_n <= 1 {
        x
    } else {
        ext_v_n(esub(edouble(esquare(x)), eone()), (log_n - 1) as nat)
    }
}

/// The vanishing polynomial of the standard trace domain at projective coordinate `t`.
pub open spec fn trace_vanishing(log_n: nat, t: Ext) -> Ext {
    esub(
        ext_v_n(projective_point(t).0, log_n),
        ebase(v_n(circle_generator(log_n + 1).0, log_n)),
    )
}

/// `PolynomialSpace::vanishing_poly_at_point` of `p3_circle::CircleDomain::standard(log_n)`:
/// the abscissa of the point, doubled `log_n - 1` times, less that of the domain's shift, the
/// generator of order `2^(log_n + 1)`. It panics where `t^2 = -1`.
#[verifier::external_body]
fn circle_vanishing_at(log_n: usize, t: Challenge) -> (r: Challenge)
    requires
        1 <= log_n <= 30,
        projective_denominator(t@) != ezero(),
    ensures
        r@ == trace_vanishing(log_n as nat, t@),
{
    let c = [t.c0, t.c1, t.c2].map(|v| Mersenne31::new(v.as_canonical_u32()));
    let e = BinomialExtensionField::<Mersenne31, 3>::new(c);
    let z = CircleDomain::<Mersenne31>::standard(log_n).vanishing_poly_at_point(e);
    let s: &[Mersenne31] = z.as_basis_coefficients_slice();
    Challenge::new([0, 1, 2].map(|i: usize| crate::field::Val::from_u32(s[i].as_canonical_u32())))
}

/// Why the openings cannot be checked at the evaluation point, if so. `log_chunks` is that of
/// the number of quotient chunks the constraint degree asks for.
pub open spec fn ood_shape_report(
    proof: StarkProofView,
    chal: AggFriChallenges,
    log_chunks: nat,
) -> Option<OodError> {
    if !(1 <= proof.degree_bits <= 30) {
        Some(OodError::Domain)
    } else if projective_denominator(chal.zeta@) == ezero() {
        Some(OodError::Pole)
    } else if trace_vanishing(proof.degree_bits as nat, chal.zeta@) == ezero() {
        Some(OodError::OnTraceDomain)
    } else if proof.quotient_chunks@.len() != exp2(log_chunks) {
        Some(OodError::ChunkCount(proof.quotient_chunks@.len() as usize))
    } else if exists|i: int|
        0 <= i < proof.quotient_chunks@.len() && (#[trigger] proof.quotient_chunks@[i])@.len()
            != EF_DIM {
        Some(OodError::ChunkWidth)
    } else if proof.trace_next is None {
        Some(OodError::MissingTraceNext)
    } else {
        None
    }
}

/// A check of the folded constraints can be made.
pub open spec fn ood_check_ready<C: Fn(&StarkProofView, &AggFriChallenges) -> bool>(
    check: C,
) -> bool {
    forall|p: &StarkProofView, c: &AggFriChallenges| call_requires(check, (p, c))
}

/// What checking the constraints at the evaluation point may return, given the challenges.
pub open spec fn ood_outcome<C: Fn(&StarkProofView, &AggFriChallenges) -> bool>(
    check: C,
    proof: StarkProofView,
    chal: AggFriChallenges,
    log_chunks: nat,
    r: Result<(), OodError>,
) -> bool {
    match ood_shape_report(proof, chal, log_chunks) {
        Some(e) => r == Err::<(), OodError>(e),
        None => exists|v: bool| #[trigger]
            call_ensures(check, (&proof, &chal), v) && r == (if v {
                Ok::<(), OodError>(())
            } else {
                Err::<(), OodError>(OodError::Mismatch)
            }),
    }
}

/// Whether every chunk has the width of the extension.
fn chunk_widths_ok(chunks: &Vec<Vec<Challenge>>) -> (r: bool)
    ensures
        r == !(exists|i: int|
            0 <= i < chunks@.len() && (#[trigger] chunks@[i])@.len() != EF_DIM),
{
    let mut i: usize = 0;
    while i < chunks.len()
        invariant
            i <= chunks.len(),
            forall|j: int| 0 <= j < i ==> (#[trigger] chunks@[j])@.len() == EF_DIM,
        decreases chunks.len() - i,
    {
        if chunks[i].len() != EF_DIM {
            return false;
        }
        i += 1;
    }
    true
}

/// Whether a number is `2^k`.
fn is_exp2(n: usize, k: usize) -> (r: bool)
    ensures
        r == (n == exp2(k as nat)),
{
    let mut m: usize = n;
    let mut i: usize = 0;
    while i < k
        invariant
            i <= k,
            (n == exp2(k as nat)) == (m == exp2((k - i) as nat)),
        decreases k - i,
    {
        proof {
            crate::bits::lemma_exp2_positive((k - i - 1) as nat);
            assert(exp2((k - i) as nat) == 2 * exp2((k - i - 1) as nat));
        }
        if m % 2 != 0 {
            return false;
        }
        m = m / 2;
        i += 1;
    }
    m == 1
}

/// Checks the constraints of a proof at its evaluation point, given the challenges.
pub fn verify_ood_with_challenges<C: Fn(&StarkProofView, &AggFriChallenges) -> bool>(
    proof: &StarkProofView,
    chal: &AggFriChallenges,
    log_chunks: usize,
    check: &C,
) -> (r: Result<(), OodError>)
    requires
        ood_check_ready(*check),
    ensures
        ood_outcome(*check, *proof, *chal, log_chunks as nat, r),
{
    if proof.degree_bits < 1 || proof.degree_bits > 30 {
        return Err(OodError::Domain);
    }
    if try_from_projective_line(chal.zeta).is_none() {
        return Err(OodError::Pole);
    }
    let z = circle_vanishing_at(proof.degree_bits, chal.zeta);
    if z.same(&Challenge::zero()) {
        return Err(OodError::OnTraceDomain);
    }
    if !is_exp2(proof.quotient_chunks.len(), log_chunks) {
        return Err(OodError::ChunkCount(proof.quotient_chunks.len()));
    }
    if !chunk_widths_ok(&proof.quotient_chunks) {
        return Err(OodError::ChunkWidth);
    }
    if proof.trace_next.is_none() {
        return Err(OodError::MissingTraceNext);
    }
    let v: bool = check(proof, chal);
    proof {
        assert(call_ensures(*check, (proof, chal), v));
    }
    if v {
        Ok(())
    } else {
        Err(OodError::Mismatch)
    }
}

/// What checking the constraints of a proof at its evaluation point may return.
pub open spec fn ood_proof_outcome<C: Fn(&StarkProofView, &AggFriChallenges) -> bool>(
    check: C,
    proof: StarkProofView,
    width: usize,
    log_chunks: nat,
    params: FriParamsView,
    r: Result<(), OodError>,
) -> bool {
    match replay_report(proof, width, params) {
        Some(e) => r == Err::<(), OodError>(OodError::Replay(e)),
        None => exists|chal: AggFriChallenges| #[trigger]
            is_replay(chal, proof, params) && ood_outcome(check, proof, chal, log_chunks, r),
    }
}

/// Checks the constraints of a system of the given width at a proof's evaluation point.
/// `check` compares the folded constraints with the quotient.
pub fn verify_ood_for_air<C: Fn(&StarkProofView, &AggFriChallenges) -> bool>(
    proof: &StarkProofView,
    width: usize,
    log_chunks: usize,
    params: &FriParamsView,
    check: &C,
) -> (r: Result<(), OodError>)
    requires
        params_ok(*params),
        ood_check_ready(*check),
    ensures
        ood_proof_outcome(*check, *proof, width, log_chunks as nat, *params, r),
{
    let chal = match replay_fri_challenges(proof, width, params) {
        Ok(c) => c,
        Err(e) => {
            return Err(OodError::Replay(e));
        },
    };
    proof {
        assert(is_replay(chal, *proof, *params));
    }
    verify_ood_with_challenges(proof, &chal, log_chunks, check)
}

/// Checks the constraints of an aggregation proof at its evaluation point.
pub fn verify_agg_ood<C: Fn(&StarkProofView, &AggFriChallenges) -> bool>(
    proof: &StarkProofView,
    log_chunks: usize,
    params: &FriParamsView,
    check: &C,
) -> (r: Result<(), OodError>)
    requires
        params_ok(*params),
        ood_check_ready(*check),
    ensures
        ood_proof_outcome(*check, *proof, AGG_WIDTH, log_chunks as nat, *params, r),
{
    verify_ood_for_air(proof, AGG_WIDTH, log_chunks, params, check)
}

/// Checks the constraints of a leaf proof at its evaluation point.
pub fn verify_leaf_ood<C: Fn(&StarkProofView, &AggFriChallenges) -> bool>(
    proof: &StarkProofView,
    width: usize,
    log_chunks: usize,
    params: &FriParamsView,
    check: &C,
) -> (r: Result<(), OodError>)
    requires
        params_ok(*params),
        ood_check_ready(*check),
    ensures
        ood_proof_outcome(*check, *proof, width, log_chunks as nat, *params, r),
{
    verify_ood_for_air(proof, width, log_chunks, params, check)
}

} // verus!
