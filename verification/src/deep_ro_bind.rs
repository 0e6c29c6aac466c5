//! The quotient reduction of the first query, tied to its first-layer fold.
use vstd::prelude::*;

use crate::agg_constraints::AGG_WIDTH;
use crate::checks::{checked, first_some, lemma_first_some_stops};
use crate::circle::CircPoint;
use crate::deep_ro_air::{
    deep_ro_prove_outcome, deep_ro_verify_outcome, generate_deep_ro_proof, verify_deep_ro_proof,
    DeepRoAir, DeepRoProofError, DeepRoStepProof,
};
use crate::ext::{evals_of, Challenge, Ext};
use crate::field::{vals, Val};
use crate::flag_air::limb_ext;
use crate::fri_fold_air::FriFoldStepProof;
use crate::fri_fold_bind::query0;
use crate::fri_fold_native::limbs_to_challenge;
use crate::fri_fs_replay::{
    decode_pcs_view, is_replay, params_ok, replay_agg_fri_challenges, replay_report,
    AggFriChallenges, ReplayError,
};
use crate::fri_ro::{locate, reconstruct_agg_query_ro, FoldYWitness, RoError, RoInput};
use crate::matrix::RowMajorMatrix;
use crate::pcs_view::{FriParamsView, StarkProofView};
use crate::proof_system::{prover_ready, verifier_ready};

verus! {

/// At most one reduction is carried.
pub const AGG_DEEP_RO_MAX: usize = 1;

/// Why the quotient reduction was not made.
#[derive(Debug, Clone, PartialEq, Eq)]
pub enum DeepQuotError {
    Replay(ReplayError),
    MissingQuery,
    MissingIndex,
    InputOpenings,
    ChunkCount,
    /// The quotient domain has no point for the query.
    Height,
    EmptyQuotient,
    QuotientWidth(usize),
    OodWidth(usize),
    MissingLambda,
    Proof(DeepRoProofError),
}

/// The height of the quotient codeword of a single chunk.
pub open spec fn quot_height(ri: RoInput) -> int {
    ri.proof.degree_bits + 1 + ri.chal.log_blowup
}

/// Why the quotient reduction of the first query cannot be made, if so.
pub open spec fn deep_quot_report(ri: RoInput) -> Option<DeepQuotError> {
    if ri.view.fri_proof.query_proofs@.len() == 0 {
        Some(DeepQuotError::MissingQuery)
    } else if ri.chal.query_indices@.len() == 0 {
        Some(DeepQuotError::MissingIndex)
    } else if ri.input().input_openings@.len() != 2 {
        Some(DeepQuotError::InputOpenings)
    } else if ri.chunks() != 1 {
        Some(DeepQuotError::ChunkCount)
    } else if !ri.height_ok(quot_height(ri)) {
        Some(DeepQuotError::Height)
    } else if ri.input().input_openings@[1].opened_values@.len() == 0 {
        Some(DeepQuotError::EmptyQuotient)
    } else if ri.chunk_row(0).len() != 3 {
        Some(DeepQuotError::QuotientWidth(ri.chunk_row(0).len() as usize))
    } else if ri.proof.quotient_chunks@[0]@.len() != 3 {
        Some(DeepQuotError::OodWidth(ri.proof.quotient_chunks@[0]@.len() as usize))
    } else if ri.view.lambdas@.len() < 2 {
        Some(DeepQuotError::MissingLambda)
    } else {
        None
    }
}

/// What making the quotient reduction of the first query returns.
pub open spec fn deep_quot_outcome<
    F: Fn(&DeepRoAir, &RowMajorMatrix, &[Val]) -> Result<Vec<u8>, String>,
>(prover: F, ri: RoInput, r: Result<DeepRoStepProof, DeepQuotError>) -> bool {
    match deep_quot_report(ri) {
        Some(e) => r == Err::<DeepRoStepProof, DeepQuotError>(e),
        None => exists|p: Result<DeepRoStepProof, DeepRoProofError>| #[trigger]
            deep_ro_prove_outcome(
                prover,
                ri.point_at(quot_height(ri)).0,
                ri.point_at(quot_height(ri)).1,
                ri.chal.batch_alpha@,
                vals(ri.chunk_row(0)),
                evals_of(ri.proof.quotient_chunks@[0]@),
                ri.view.lambdas@[1]@,
                ri.proof.degree_bits + 1,
                ri.chal.zeta@,
                p,
            ) && r == (match p {
                Ok(s) => Ok::<DeepRoStepProof, DeepQuotError>(s),
                Err(e) => Err::<DeepRoStepProof, DeepQuotError>(DeepQuotError::Proof(e)),
            }),
    }
}

/// Proves the quotient reduction of the first query, given the challenges.
pub fn deep_ro_quot_query0_with_challenges<
    F: Fn(&DeepRoAir, &RowMajorMatrix, &[Val]) -> Result<Vec<u8>, String>,
>(proof: &StarkProofView, chal: &AggFriChallenges, prover: &F) -> (r: Result<
    DeepRoStepProof,
    DeepQuotError,
>)
    requires
        prover_ready::<DeepRoAir, F>(*prover),
        proof.opening_proof.fri_proof.commit_phase_commits@.len() + chal.log_blowup + 1
            <= usize::MAX,
    ensures
        deep_quot_outcome(*prover, query0(*proof, *chal), r),
{
    let ghost ri = query0(*proof, *chal);
    let view = decode_pcs_view(proof);
    if view.fri_proof.query_proofs.len() == 0 {
        return Err(DeepQuotError::MissingQuery);
    }
    if chal.query_indices.len() == 0 {
        return Err(DeepQuotError::MissingIndex);
    }
    let input = &view.fri_proof.query_proofs[0].input_proof;
    if input.input_openings.len() != 2 {
        return Err(DeepQuotError::InputOpenings);
    }
    if proof.quotient_chunks.len() != 1 {
        return Err(DeepQuotError::ChunkCount);
    }
    if proof.degree_bits > 30 || chal.log_blowup > 30 {
        return Err(DeepQuotError::Height);
    }
    let height: usize = proof.degree_bits + 1 + chal.log_blowup;
    let log_max: usize = view.fri_proof.commit_phase_commits.len() + chal.log_blowup + 1;
    let (p, _) = match locate(chal.query_indices[0], log_max, height, Ghost(ri)) {
        Some(x) => x,
        None => {
            return Err(DeepQuotError::Height);
        },
    };
    if input.input_openings[1].opened_values.len() == 0 {
        return Err(DeepQuotError::EmptyQuotient);
    }
    let opened: &Vec<Val> = &input.input_openings[1].opened_values[0];
    if opened.len() != 3 {
        return Err(DeepQuotError::QuotientWidth(opened.len()));
    }
    let at_zeta: &Vec<Challenge> = &proof.quotient_chunks[0];
    if at_zeta.len() != 3 {
        return Err(DeepQuotError::OodWidth(at_zeta.len()));
    }
    if view.lambdas.len() < 2 {
        return Err(DeepQuotError::MissingLambda);
    }
    let px: [Val; 3] = [opened[0], opened[1], opened[2]];
    let pz: [Challenge; 3] = [at_zeta[0], at_zeta[1], at_zeta[2]];
    proof {
        assert(vals(px@) =~= vals(ri.chunk_row(0)));
        assert(evals_of(pz@) =~= evals_of(ri.proof.quotient_chunks@[0]@));
    }
    let s = generate_deep_ro_proof(
        p.x,
        p.y,
        chal.batch_alpha,
        px,
        pz,
        view.lambdas[1],
        proof.degree_bits + 1,
        chal.zeta,
        prover,
    );
    proof {
        assert(deep_ro_prove_outcome(
            *prover,
            ri.point_at(quot_height(ri)).0,
            ri.point_at(quot_height(ri)).1,
            ri.chal.batch_alpha@,
            vals(ri.chunk_row(0)),
            evals_of(ri.proof.quotient_chunks@[0]@),
            ri.view.lambdas@[1]@,
            ri.proof.degree_bits + 1,
            ri.chal.zeta@,
            s,
        ));
    }
    match s {
        Ok(d) => Ok(d),
        Err(e) => Err(DeepQuotError::Proof(e)),
    }
}

/// Proves the quotient reduction of the first query of an aggregation proof.
pub fn deep_ro_quot_query0_from_agg_proof<
    F: Fn(&DeepRoAir, &RowMajorMatrix, &[Val]) -> Result<Vec<u8>, String>,
>(proof: &StarkProofView, params: &FriParamsView, prover: &F) -> (r: Result<
    DeepRoStepProof,
    DeepQuotError,
>)
    requires
        params_ok(*params),
        prover_ready::<DeepRoAir, F>(*prover),
        proof.opening_proof.fri_proof.commit_phase_commits@.len() + params.log_blowup + 1
            <= usize::MAX,
    ensures
        match replay_report(*proof, AGG_WIDTH, *params) {
            Some(e) => r == Err::<DeepRoStepProof, DeepQuotError>(DeepQuotError::Replay(e)),
            None => exists|chal: AggFriChallenges| #[trigger]
                is_replay(chal, *proof, *params) && deep_quot_outcome(
                    *prover,
                    query0(*proof, chal),
                    r,
                ),
        },
{
    let chal = match replay_agg_fri_challenges(proof, params) {
        Ok(c) => c,
        Err(e) => {
            return Err(DeepQuotError::Replay(e));
        },
    };
    proof {
        assert(is_replay(chal, *proof, *params));
    }
    deep_ro_quot_query0_with_challenges(proof, &chal, prover)
}

/// Why a reduction is not the one a fold was made from.
#[derive(Debug, Clone, PartialEq, Eq)]
pub enum DeepBindError {
    /// The reduction does not verify.
    Verify,
    Replay(ReplayError),
    Openings(RoError),
    /// The quotient domain has no point for the query.
    Height,
    Alpha,
    Zeta,
    LogN,
    EmptyQuotient,
    Px,
    OodWidth,
    Pz(usize),
    Point,
    MissingLambda,
    Lambda,
    MissingWitness,
    MissingFold,
    /// The result is not the queried value of the given fold.
    FoldLeaf,
    /// The result is not the queried value of the fold from the proof.
    WitnessLeaf,
}

/// The first-layer fold of the quotient height.
pub open spec fn quot_witness(ri: RoInput) -> Option<int> {
    first_some(
        ri.sums().len(),
        |k: int|
            if ri.sums()[k].0 == quot_height(ri) {
                Some(k)
            } else {
                None
            },
    )
}

/// The given fold with the height and position of entry `k`.
pub open spec fn quot_fold(ri: RoInput, fold_ys: Seq<FriFoldStepProof>, k: int) -> Option<int> {
    first_some(
        if ri.sums().len() <= fold_ys.len() {
            ri.sums().len()
        } else {
            fold_ys.len()
        },
        |j: int|
            if fold_ys[j].log_folded_height == quot_height(ri) - 1 && fold_ys[j].index
                == ri.fold_index(k) {
                Some(j)
            } else {
                None
            },
    )
}

/// The value a fold has at the queried side.
pub open spec fn queried(slot: int, v0: Ext, v1: Ext) -> Ext {
    if slot == 0 {
        v0
    } else {
        v1
    }
}

/// Where a reduction differs from the openings of the first query, if it does.
pub open spec fn deep_opening_report(ri: RoInput, d: DeepRoStepProof) -> Option<DeepBindError> {
    let h = quot_height(ri);
    let at_zeta = ri.proof.quotient_chunks@[0]@;
    if !ri.height_ok(h) {
        Some(DeepBindError::Height)
    } else if d.alpha() != ri.chal.batch_alpha@ {
        Some(DeepBindError::Alpha)
    } else if d.zeta() != ri.chal.zeta@ {
        Some(DeepBindError::Zeta)
    } else if d.log_n != ri.proof.degree_bits + 1 {
        Some(DeepBindError::LogN)
    } else if ri.input().input_openings@[1].opened_values@.len() == 0 {
        Some(DeepBindError::EmptyQuotient)
    } else if vals(d.px@) != vals(ri.chunk_row(0)) {
        Some(DeepBindError::Px)
    } else if at_zeta.len() != 3 {
        Some(DeepBindError::OodWidth)
    } else if d.pz()[0] != at_zeta[0]@ {
        Some(DeepBindError::Pz(0))
    } else if d.pz()[1] != at_zeta[1]@ {
        Some(DeepBindError::Pz(1))
    } else if d.pz()[2] != at_zeta[2]@ {
        Some(DeepBindError::Pz(2))
    } else if (d.sx@, d.sy@) != ri.point_at(h) {
        Some(DeepBindError::Point)
    } else if ri.view.lambdas@.len() < 2 {
        Some(DeepBindError::MissingLambda)
    } else if d.lambda() != ri.view.lambdas@[1]@ {
        Some(DeepBindError::Lambda)
    } else {
        None
    }
}

/// Where a reduction differs from the folds of the first query, if it does.
pub open spec fn deep_fold_report(
    ri: RoInput,
    d: DeepRoStepProof,
    fold_ys: Seq<FriFoldStepProof>,
) -> Option<DeepBindError> {
    let slot = ri.index_at(quot_height(ri)) % 2;
    match quot_witness(ri) {
        None => Some(DeepBindError::MissingWitness),
        Some(k) => match quot_fold(ri, fold_ys, k) {
            None => Some(DeepBindError::MissingFold),
            Some(j) => if d.out() != queried(slot, fold_ys[j].v0(), fold_ys[j].v1()) {
                Some(DeepBindError::FoldLeaf)
            } else if d.out() != queried(slot, ri.pair(k).0, ri.pair(k).1) {
                Some(DeepBindError::WitnessLeaf)
            } else {
                None
            },
        },
    }
}

/// Where a reduction differs from the first query, if it does.
pub open spec fn deep_bind_report(
    ri: RoInput,
    d: DeepRoStepProof,
    fold_ys: Seq<FriFoldStepProof>,
) -> Option<DeepBindError> {
    if ri.report(AGG_WIDTH) is Some {
        Some(DeepBindError::Openings(ri.report(AGG_WIDTH)->0))
    } else if deep_opening_report(ri, d) is Some {
        deep_opening_report(ri, d)
    } else {
        deep_fold_report(ri, d, fold_ys)
    }
}

/// Whether limbs are those of a challenge.
fn limbs_are(limbs: &[Val; 3], c: &Challenge) -> (r: bool)
    ensures
        r == (limb_ext(limbs@) == c@),
{
    limbs_to_challenge(*limbs).same(c)
}

/// Compares a reduction with the openings of the first query.
fn check_deep_openings(
    proof: &StarkProofView,
    chal: &AggFriChallenges,
    d: &DeepRoStepProof,
    p: &CircPoint,
) -> (r: Result<(), DeepBindError>)
    requires
        ({
            let ri = query0(*proof, *chal);
            &&& ri.view.fri_proof.query_proofs@.len() > 0
            &&& ri.input().input_openings@.len() == 2
            &&& ri.proof.quotient_chunks@.len() > 0
            &&& ri.height_ok(quot_height(ri))
            &&& p@ == ri.point_at(quot_height(ri))
            &&& proof.degree_bits <= 30
        }),
    ensures
        checked(r, deep_opening_report(query0(*proof, *chal), *d)),
{
    let ghost ri = query0(*proof, *chal);
    let view = decode_pcs_view(proof);
    if !limbs_are(&d.alpha_limbs, &chal.batch_alpha) {
        return Err(DeepBindError::Alpha);
    }
    if !limbs_are(&d.zeta_limbs, &chal.zeta) {
        return Err(DeepBindError::Zeta);
    }
    if d.log_n as usize != proof.degree_bits + 1 {
        return Err(DeepBindError::LogN);
    }
    let input = &view.fri_proof.query_proofs[0].input_proof;
    if input.input_openings[1].opened_values.len() == 0 {
        return Err(DeepBindError::EmptyQuotient);
    }
    let opened: &Vec<Val> = &input.input_openings[1].opened_values[0];
    let same_px: bool = opened.len() == 3 && d.px[0].same(&opened[0]) && d.px[1].same(&opened[1])
        && d.px[2].same(&opened[2]);
    proof {
        let a = vals(d.px@);
        let b = vals(ri.chunk_row(0));
        if same_px {
            assert(a =~= b);
        } else if opened@.len() == 3 {
            assert(a[0] != b[0] || a[1] != b[1] || a[2] != b[2]);
        } else {
            assert(a.len() != b.len());
        }
    }
    if !same_px {
        return Err(DeepBindError::Px);
    }
    let at_zeta: &Vec<Challenge> = &proof.quotient_chunks[0];
    if at_zeta.len() != 3 {
        return Err(DeepBindError::OodWidth);
    }
    if !limbs_are(&d.pz_limbs[0], &at_zeta[0]) {
        return Err(DeepBindError::Pz(0));
    }
    if !limbs_are(&d.pz_limbs[1], &at_zeta[1]) {
        return Err(DeepBindError::Pz(1));
    }
    if !limbs_are(&d.pz_limbs[2], &at_zeta[2]) {
        return Err(DeepBindError::Pz(2));
    }
    if !d.sx.same(&p.x) || !d.sy.same(&p.y) {
        return Err(DeepBindError::Point);
    }
    if view.lambdas.len() < 2 {
        return Err(DeepBindError::MissingLambda);
    }
    if !limbs_are(&d.lambda_limbs, &view.lambdas[1]) {
        return Err(DeepBindError::Lambda);
    }
    Ok(())
}

/// Compares a reduction with the folds of the first query.
fn check_deep_folds(
    d: &DeepRoStepProof,
    fold_ys: &[FriFoldStepProof],
    y_wits: &Vec<FoldYWitness>,
    log_folded: usize,
    slot: usize,
    Ghost(ri): Ghost<RoInput>,
    Ghost(ros): Ghost<Seq<(usize, Challenge)>>,
) -> (r: Result<(), DeepBindError>)
    requires
        ri.is_result(ros, y_wits@),
        log_folded == quot_height(ri) - 1,
        slot == ri.index_at(quot_height(ri)) % 2,
    ensures
        checked(r, deep_fold_report(ri, *d, fold_ys@)),
{
    let n: usize = y_wits.len();
    let ghost f = |k: int|
        if ri.sums()[k].0 == quot_height(ri) {
            Some(k)
        } else {
            None
        };
    let mut k: usize = 0;
    while k < n && y_wits[k].log_folded_height != log_folded
        invariant
            k <= n,
            n == y_wits@.len(),
            n == ri.sums().len(),
            ri.is_result(ros, y_wits@),
            log_folded == quot_height(ri) - 1,
            f == (|k: int|
                if ri.sums()[k].0 == quot_height(ri) {
                    Some(k)
                } else {
                    None
                }),
            first_some(k as nat, f) is None,
        decreases n - k,
    {
        proof {
            assert(y_wits@[k as int].log_folded_height == ri.sums()[k as int].0 - 1);
            assert(f(k as int) is None);
        }
        k += 1;
    }
    if k == n {
        return Err(DeepBindError::MissingWitness);
    }
    proof {
        assert(y_wits@[k as int].log_folded_height == ri.sums()[k as int].0 - 1);
        assert(f(k as int) == Some(k as int));
        assert(first_some((k + 1) as nat, f) == Some(k as int));
        lemma_first_some_stops((k + 1) as nat, n as nat, f);
        assert(quot_witness(ri) == Some(k as int));
    }
    let wit = &y_wits[k];
    let m: usize = if n <= fold_ys.len() {
        n
    } else {
        fold_ys.len()
    };
    let ghost g = |j: int|
        if fold_ys@[j].log_folded_height == quot_height(ri) - 1 && fold_ys@[j].index
            == ri.fold_index(k as int) {
            Some(j)
        } else {
            None
        };
    let mut j: usize = 0;
    while j < m && !(fold_ys[j].log_folded_height as usize == log_folded && fold_ys[j].index as usize
        == wit.index)
        invariant
            j <= m,
            m <= fold_ys@.len(),
            log_folded == quot_height(ri) - 1,
            wit.index == ri.fold_index(k as int),
            g == (|j: int|
                if fold_ys@[j].log_folded_height == quot_height(ri) - 1 && fold_ys@[j].index
                    == ri.fold_index(k as int) {
                    Some(j)
                } else {
                    None
                }),
            first_some(j as nat, g) is None,
        decreases m - j,
    {
        proof {
            assert(g(j as int) is None);
        }
        j += 1;
    }
    if j == m {
        return Err(DeepBindError::MissingFold);
    }
    proof {
        assert(g(j as int) == Some(j as int));
        assert(first_some((j + 1) as nat, g) == Some(j as int));
        lemma_first_some_stops((j + 1) as nat, m as nat, g);
        assert(quot_fold(ri, fold_ys@, k as int) == Some(j as int));
    }
    let fold = &fold_ys[j];
    let out = limbs_to_challenge(d.out_limbs);
    let leaf = if slot == 0 {
        limbs_to_challenge(fold.v0_limbs)
    } else {
        limbs_to_challenge(fold.v1_limbs)
    };
    if !out.same(&leaf) {
        return Err(DeepBindError::FoldLeaf);
    }
    let expect = if slot == 0 {
        wit.v0
    } else {
        wit.v1
    };
    if !out.same(&expect) {
        return Err(DeepBindError::WitnessLeaf);
    }
    Ok(())
}

/// Compares a reduction with the first query and its folds, given the challenges.
pub fn bind_deep_ro_with_challenges(
    proof: &StarkProofView,
    chal: &AggFriChallenges,
    deep_ro: &DeepRoStepProof,
    fold_ys: &[FriFoldStepProof],
) -> (r: Result<(), DeepBindError>)
    requires
        proof.opening_proof.fri_proof.commit_phase_commits@.len() + chal.log_blowup + 1
            <= usize::MAX,
    ensures
        checked(r, deep_bind_report(query0(*proof, *chal), *deep_ro, fold_ys@)),
{
    let ghost ri = query0(*proof, *chal);
    let view = decode_pcs_view(proof);
    let (ros, y_wits) = match reconstruct_agg_query_ro(proof, chal, view, 0) {
        Ok(x) => x,
        Err(e) => {
            return Err(DeepBindError::Openings(e));
        },
    };
    proof {
        assert(ri.shape_report(AGG_WIDTH) is None);
        assert(ri.trace_report(AGG_WIDTH) is None);
        assert(ri.chunks() > 0);
    }
    if chal.log_blowup > 30 {
        return Err(DeepBindError::Height);
    }
    let height: usize = proof.degree_bits + 1 + chal.log_blowup;
    let log_max: usize = view.fri_proof.commit_phase_commits.len() + chal.log_blowup + 1;
    let (p, idx) = match locate(chal.query_indices[0], log_max, height, Ghost(ri)) {
        Some(x) => x,
        None => {
            return Err(DeepBindError::Height);
        },
    };
    if let Err(e) = check_deep_openings(proof, chal, deep_ro, &p) {
        return Err(e);
    }
    check_deep_folds(deep_ro, fold_ys, &y_wits, height - 1, idx % 2, Ghost(ri), Ghost(ros@))
}

/// What binding a reduction to an aggregation proof returns.
pub open spec fn deep_bind_outcome<V: Fn(&DeepRoAir, &[Val], &[u8]) -> bool>(
    verifier: V,
    proof: StarkProofView,
    params: FriParamsView,
    d: DeepRoStepProof,
    fold_ys: Seq<FriFoldStepProof>,
    r: Result<(), DeepBindError>,
) -> bool {
    exists|v: bool| #[trigger]
        deep_ro_verify_outcome(verifier, d, v) && (if !v {
            r == Err::<(), DeepBindError>(DeepBindError::Verify)
        } else {
            match replay_report(proof, AGG_WIDTH, params) {
                Some(e) => r == Err::<(), DeepBindError>(DeepBindError::Replay(e)),
                None => exists|chal: AggFriChallenges| #[trigger]
                    is_replay(chal, proof, params) && checked(
                        r,
                        deep_bind_report(query0(proof, chal), d, fold_ys),
                    ),
            }
        })
}

/// Binds a reduction to the quotient fold of the first query of an aggregation proof.
pub fn bind_deep_ro_to_fold_y<V: Fn(&DeepRoAir, &[Val], &[u8]) -> bool>(
    proof: &StarkProofView,
    params: &FriParamsView,
    deep_ro: &DeepRoStepProof,
    fold_ys: &[FriFoldStepProof],
    verifier: &V,
) -> (r: Result<(), DeepBindError>)
    requires
        params_ok(*params),
        verifier_ready::<DeepRoAir, V>(*verifier),
        proof.opening_proof.fri_proof.commit_phase_commits@.len() + params.log_blowup + 1
            <= usize::MAX,
    ensures
        deep_bind_outcome(*verifier, *proof, *params, *deep_ro, fold_ys@, r),
{
    let v = verify_deep_ro_proof(deep_ro, verifier);
    proof {
        assert(deep_ro_verify_outcome(*verifier, *deep_ro, v));
    }
    if !v {
        return Err(DeepBindError::Verify);
    }
    let chal = match replay_agg_fri_challenges(proof, params) {
        Ok(c) => c,
        Err(e) => {
            return Err(DeepBindError::Replay(e));
        },
    };
    proof {
        assert(is_replay(chal, *proof, *params));
    }
    bind_deep_ro_with_challenges(proof, &chal, deep_ro, fold_ys)
}

} // verus!
