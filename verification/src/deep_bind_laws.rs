//! A reduction that is bound belongs to the first query of its proof and to a given fold.
use vstd::prelude::*;

use crate::agg_constraints::AGG_WIDTH;
use crate::bits::{exp2, lemma_shr_divides};
use crate::checks::{checked, lemma_first_some_at, lemma_first_some_found};
use crate::circle::{cfft_permuted, nth_point};
use crate::deep_ro_air::{
    deep_ro_prove_outcome, deep_ro_verify_outcome, DeepRoAir, DeepRoProofError, DeepRoStepProof,
};
use crate::deep_ro_bind::{
    deep_bind_outcome, deep_bind_report, deep_fold_report, deep_opening_report, deep_quot_outcome,
    quot_fold, quot_height, quot_witness, DeepBindError, DeepQuotError,
};
use crate::ext::{evals_of, Challenge};
use crate::field::{vals, Val};
use crate::fri_fold_air::FriFoldStepProof;
use crate::fri_fold_bind::query0;
use crate::fri_fs_replay::{is_replay, AggFriChallenges};
use crate::fri_ro::RoInput;
use crate::matrix::RowMajorMatrix;
use crate::pcs_view::{FriParamsView, StarkProofView};
use crate::reduction_laws::lemma_single_chunk_sum;

verus! {

/// Three limbs hold the coefficients of a challenge.
pub open spec fn limbs_hold(limbs: [Val; 3], c: Challenge) -> bool {
    limbs@[0]@ == c.c0@ && limbs@[1]@ == c.c1@ && limbs@[2]@ == c.c2@
}

/// Two lists of limbs hold the same.
pub open spec fn same_limb_values(a: [Val; 3], b: [Val; 3]) -> bool {
    a@[0]@ == b@[0]@ && a@[1]@ == b@[1]@ && a@[2]@ == b@[2]@
}

/// The position of the first query in the quotient codeword: its index without the bits by which
/// the tallest codeword is higher.
pub open spec fn quotient_slot(proof: StarkProofView, chal: AggFriChallenges) -> int {
    let rounds = proof.opening_proof.fri_proof.commit_phase_commits@.len();
    chal.query_indices@[0] as int / (exp2((rounds - proof.degree_bits) as nat) as int)
}

/// A reduction is that of the first query's quotient row: the challenges, the opened row, the
/// values at the evaluation point, the weight and the domain point are those of the proof.
pub open spec fn reads_first_query(
    proof: StarkProofView,
    chal: AggFriChallenges,
    d: DeepRoStepProof,
) -> bool {
    let input = proof.opening_proof.fri_proof.query_proofs@[0].input_proof;
    let row = input.input_openings@[1].opened_values@[0]@;
    let at_zeta = proof.quotient_chunks@[0]@;
    let h = (proof.degree_bits + 1 + chal.log_blowup) as nat;
    &&& limbs_hold(d.alpha_limbs, chal.batch_alpha)
    &&& limbs_hold(d.zeta_limbs, chal.zeta)
    &&& d.log_n == proof.degree_bits + 1
    &&& row.len() == 3
    &&& d.px@[0]@ == row[0]@ && d.px@[1]@ == row[1]@ && d.px@[2]@ == row[2]@
    &&& at_zeta.len() == 3
    &&& limbs_hold(d.pz_limbs@[0], at_zeta[0])
    &&& limbs_hold(d.pz_limbs@[1], at_zeta[1])
    &&& limbs_hold(d.pz_limbs@[2], at_zeta[2])
    &&& limbs_hold(d.lambda_limbs, proof.opening_proof.lambdas@[1])
    &&& (d.sx@, d.sy@) == nth_point(h, cfft_permuted(quotient_slot(proof, chal), h))
}

/// Step `j` folds at the quotient height and at the position of the first query.
pub open spec fn at_quotient(
    proof: StarkProofView,
    chal: AggFriChallenges,
    fold_ys: Seq<FriFoldStepProof>,
    j: int,
) -> bool {
    &&& fold_ys[j].log_folded_height == proof.degree_bits + chal.log_blowup
    &&& fold_ys[j].index == quotient_slot(proof, chal) / 2
}

/// The result of a reduction is the value of step `j` at the queried side.
pub open spec fn leads_into(
    proof: StarkProofView,
    chal: AggFriChallenges,
    d: DeepRoStepProof,
    fold_ys: Seq<FriFoldStepProof>,
    j: int,
) -> bool {
    if quotient_slot(proof, chal) % 2 == 0 {
        same_limb_values(d.out_limbs, fold_ys[j].v0_limbs)
    } else {
        same_limb_values(d.out_limbs, fold_ys[j].v1_limbs)
    }
}

/// Among the first-layer folds given for the first query there is one at the quotient height and
/// the query's position, and its value at the queried side is the result of the reduction.
pub open spec fn bound_to_fold(
    proof: StarkProofView,
    chal: AggFriChallenges,
    d: DeepRoStepProof,
    fold_ys: Seq<FriFoldStepProof>,
) -> bool {
    exists|j: int|
        0 <= j < 2 && j < fold_ys.len() && #[trigger] at_quotient(proof, chal, fold_ys, j)
            && leads_into(proof, chal, d, fold_ys, j)
}

/// The position of the first query in the quotient codeword.
proof fn lemma_slot(ri: RoInput)
    requires
        ri.proof.opening_proof == ri.view,
        ri.query == 0,
        ri.height_ok(quot_height(ri)),
    ensures
        ri.index_at(quot_height(ri)) == quotient_slot(ri.proof, ri.chal),
        quotient_slot(ri.proof, ri.chal) >= 0,
{
    let k = (ri.log_max_height() - quot_height(ri)) as nat;
    lemma_shr_divides(ri.query_index(), k);
    crate::bits::lemma_shr_bounds(ri.query_index(), k);
}

/// A reduction that is bound is accepted by its verifier, reads the first query of the proof, and
/// leads into a given fold of that query.
pub proof fn lemma_bound_reduction<V: Fn(&DeepRoAir, &[Val], &[u8]) -> bool>(
    verifier: V,
    proof: StarkProofView,
    params: FriParamsView,
    d: DeepRoStepProof,
    fold_ys: Seq<FriFoldStepProof>,
)
    requires
        deep_bind_outcome(verifier, proof, params, d, fold_ys, Ok(())),
    ensures
        deep_ro_verify_outcome(verifier, d, true),
        exists|chal: AggFriChallenges|
            {
                &&& #[trigger] is_replay(chal, proof, params)
                &&& reads_first_query(proof, chal, d)
                &&& bound_to_fold(proof, chal, d, fold_ys)
            },
{
    let r = Ok::<(), DeepBindError>(());
    let chal = choose|chal: AggFriChallenges| #[trigger]
        is_replay(chal, proof, params) && checked(
            r,
            deep_bind_report(query0(proof, chal), d, fold_ys),
        );
    lemma_bound_with(proof, chal, d, fold_ys);
}

/// Given the challenges, a reduction for which binding reports nothing reads the first query and
/// leads into a given fold.
pub proof fn lemma_bound_with(
    proof: StarkProofView,
    chal: AggFriChallenges,
    d: DeepRoStepProof,
    fold_ys: Seq<FriFoldStepProof>,
)
    requires
        deep_bind_report(query0(proof, chal), d, fold_ys) is None,
    ensures
        proof.quotient_chunks@.len() == 1,
        reads_first_query(proof, chal, d),
        bound_to_fold(proof, chal, d, fold_ys),
{
    let ri = query0(proof, chal);
    assert(ri.report(AGG_WIDTH) is None);
    assert(deep_opening_report(ri, d) is None);
    assert(deep_fold_report(ri, d, fold_ys) is None);
    lemma_slot(ri);
    let a = vals(d.px@);
    let b = vals(ri.chunk_row(0));
    assert(a.len() == 3 && b.len() == 3);
    assert(a[0] == b[0] && a[1] == b[1] && a[2] == b[2]);
    let f = |k: int|
        if ri.sums()[k].0 == quot_height(ri) {
            Some(k)
        } else {
            None
        };
    let k = lemma_first_some_found(ri.sums().len(), f);
    assert(ri.sums()[k].0 == quot_height(ri));
    assert(quot_witness(ri) == Some(k));
    let n = if ri.sums().len() <= fold_ys.len() {
        ri.sums().len()
    } else {
        fold_ys.len()
    };
    let g = |j: int|
        if fold_ys[j].log_folded_height == quot_height(ri) - 1 && fold_ys[j].index
            == ri.fold_index(k) {
            Some(j)
        } else {
            None
        };
    let j = lemma_first_some_found(n, g);
    assert(quot_fold(ri, fold_ys, k) == Some(j));
    assert(at_quotient(proof, chal, fold_ys, j));
    assert(leads_into(proof, chal, d, fold_ys, j));
}

/// Given the challenges, binding reports nothing where the openings can be reduced, the reduction
/// reads the first query, the first given fold at its height and position has its result at the
/// queried side, and so has the fold from the proof.
pub proof fn lemma_binds_with(
    proof: StarkProofView,
    chal: AggFriChallenges,
    d: DeepRoStepProof,
    fold_ys: Seq<FriFoldStepProof>,
    j: int,
)
    requires
        query0(proof, chal).report(AGG_WIDTH) is None,
        proof.quotient_chunks@.len() == 1,
        reads_first_query(proof, chal, d),
        0 <= j < 2 && j < fold_ys.len(),
        at_quotient(proof, chal, fold_ys, j),
        forall|i: int| 0 <= i < j ==> !(#[trigger] at_quotient(proof, chal, fold_ys, i)),
        leads_into(proof, chal, d, fold_ys, j),
        d.out() == query0(proof, chal).corrected(1),
    ensures
        deep_bind_report(query0(proof, chal), d, fold_ys) is None,
{
    let ri = query0(proof, chal);
    let n = if ri.sums().len() <= fold_ys.len() {
        ri.sums().len()
    } else {
        fold_ys.len()
    };
    let c = |i: int| ri.chunk_report(i);
    crate::checks::lemma_first_some_none(1, c, 0);
    assert(c(0) is None);
    assert(ri.sums().len() == 2);
    lemma_slot(ri);
    assert(vals(d.px@) =~= vals(ri.chunk_row(0)));
    assert(deep_opening_report(ri, d) is None);
    let f = |k: int|
        if ri.sums()[k].0 == quot_height(ri) {
            Some(k)
        } else {
            None
        };
    assert(f(0) is None);
    lemma_first_some_at(ri.sums().len(), f, 1, 1);
    assert(quot_witness(ri) == Some(1int));
    let g = |i: int|
        if fold_ys[i].log_folded_height == quot_height(ri) - 1 && fold_ys[i].index
            == ri.fold_index(1) {
            Some(i)
        } else {
            None
        };
    assert forall|i: int| 0 <= i < j implies #[trigger] g(i) is None by {
        assert(!at_quotient(proof, chal, fold_ys, i));
    }
    lemma_first_some_at(n, g, j, j);
    assert(quot_fold(ri, fold_ys, 1) == Some(j));
}

/// A reduction that is made of the first query reads it; and where the openings of that query
/// can be reduced, it gives the query's corrected quotient opening.
pub proof fn lemma_made_reduction_reads<
    F: Fn(&DeepRoAir, &RowMajorMatrix, &[Val]) -> Result<Vec<u8>, String>,
>(prover: F, proof: StarkProofView, chal: AggFriChallenges, d: DeepRoStepProof)
    requires
        deep_quot_outcome(prover, query0(proof, chal), Ok(d)),
    ensures
        proof.quotient_chunks@.len() == 1,
        reads_first_query(proof, chal, d),
        d.holds(),
        d.out() == query0(proof, chal).corrected(1),
{
    let ri = query0(proof, chal);
    let r = Ok::<DeepRoStepProof, DeepQuotError>(d);
    let p = choose|p: Result<DeepRoStepProof, DeepRoProofError>| #[trigger]
        deep_ro_prove_outcome(
            prover,
            ri.point_at(quot_height(ri)).0,
            ri.point_at(quot_height(ri)).1,
            ri.chal.batch_alpha@,
            vals(ri.chunk_row(0)),
            evals_of(ri.proof.quotient_chunks@[0]@),
            ri.view.lambdas@[1]@,
            ri.proof.degree_bits + 1,
            ri.chal.zeta@,
            p,
        ) && r == (match p {
            Ok(s) => Ok::<DeepRoStepProof, DeepQuotError>(s),
            Err(e) => Err::<DeepRoStepProof, DeepQuotError>(DeepQuotError::Proof(e)),
        });
    assert(p == Ok::<DeepRoStepProof, DeepRoProofError>(d));
    lemma_slot(ri);
    let a = vals(d.px@);
    let b = vals(ri.chunk_row(0));
    assert(a.len() == 3 && b.len() == 3);
    assert(a[0] == b[0] && a[1] == b[1] && a[2] == b[2]);
    lemma_single_chunk_sum(ri);
}

} // verus!
