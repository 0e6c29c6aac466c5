//! The openings of an aggregation proof, checked against its commitments.
use vstd::prelude::*;

use crate::agg_constraints::AGG_WIDTH;
use crate::batch_path::Dimensions;
use crate::bits::{exp2, lemma_exp2_monotone, pow2_usize, shift_right};
use crate::chal_mmcs::rounds_fit;
use crate::checks::{followed, in_turn, lemma_turn_fails};
use crate::circle::lemma_exp2_30;
use crate::ext::{evals_of, Challenge, Ext};
use crate::field::Val;
use crate::fri_fold_bind::{
    folded_openings, ri_chain, ro_views, round_pair, ChainCursor, ChainInput, FoldChainError,
    AGG_FRI_MAX_ROUNDS,
};
use crate::fri_fold_native::x_fold_ok;
use crate::fri_fs_replay::{
    is_replay, params_ok, replay_agg_fri_challenges, replay_report, AggFriChallenges, ReplayError,
};
use crate::fri_ro::{reconstruct_agg_query_ro, FoldYWitness, RoError, RoInput};
use crate::pcs_view::{
    BatchOpeningView, CommitPhaseStepView, FriParamsView, StarkProofView,
};
use crate::val_mmcs::{query_of, EF_DIM};

verus! {

/// Why openings do not belong to the commitments of a proof.
#[derive(Debug, Clone, PartialEq, Eq)]
pub enum OpeningsError {
    Replay(ReplayError),
    /// The trace or quotient codeword is higher than the tallest one, or than a domain can be.
    Height,
    /// The queries and the drawn positions differ in number.
    QueryCount,
    InputBatches(usize),
    Trace(usize),
    Quotient(usize),
    Openings(usize, RoError),
    FirstLayer(usize),
    /// The rounds, challenges and commitments differ in number.
    RoundCount(usize),
    Chain(usize, FoldChainError),
    Commit(usize, usize),
}

/// A check of base rows against a commitment can be made.
pub open spec fn val_check_ready<
    V: Fn(&Vec<[u8; 32]>, &Vec<Dimensions>, usize, &Vec<Vec<Val>>, &Vec<[u8; 32]>) -> bool,
>(check: V) -> bool {
    forall|
        com: &Vec<[u8; 32]>,
        dims: &Vec<Dimensions>,
        index: usize,
        rows: &Vec<Vec<Val>>,
        path: &Vec<[u8; 32]>,
    |
        call_requires(check, (com, dims, index, rows, path))
}

/// A check of extension rows against a commitment can be made.
pub open spec fn chal_check_ready<
    C: Fn(&Vec<[u8; 32]>, &Vec<Dimensions>, usize, &Vec<Vec<Challenge>>, &Vec<[u8; 32]>) -> bool,
>(check: C) -> bool {
    forall|
        com: &Vec<[u8; 32]>,
        dims: &Vec<Dimensions>,
        index: usize,
        rows: &Vec<Vec<Challenge>>,
        path: &Vec<[u8; 32]>,
    |
        call_requires(check, (com, dims, index, rows, path))
}

/// The check of a batch of base rows may return `v`.
pub open spec fn val_verdict<
    V: Fn(&Vec<[u8; 32]>, &Vec<Dimensions>, usize, &Vec<Vec<Val>>, &Vec<[u8; 32]>) -> bool,
>(
    check: V,
    com: Vec<[u8; 32]>,
    dims: Seq<Dimensions>,
    index: int,
    opening: BatchOpeningView,
    v: bool,
) -> bool {
    exists|d: Vec<Dimensions>| #[trigger]
        d@ == dims && call_ensures(
            check,
            (&com, &d, index as usize, &opening.opened_values, &opening.opening_proof),
            v,
        )
}

/// `rows` holds the pairs `want`.
pub open spec fn rows_are_pairs(rows: Seq<Vec<Challenge>>, want: Seq<(Ext, Ext)>) -> bool {
    &&& rows.len() == want.len()
    &&& forall|i: int|
        0 <= i < rows.len() ==> evals_of((#[trigger] rows[i])@) == seq![want[i].0, want[i].1]
}

/// The check of a batch of pairs may return `v`.
pub open spec fn chal_verdict<
    C: Fn(&Vec<[u8; 32]>, &Vec<Dimensions>, usize, &Vec<Vec<Challenge>>, &Vec<[u8; 32]>) -> bool,
>(
    check: C,
    com: Vec<[u8; 32]>,
    dims: Seq<Dimensions>,
    index: int,
    pairs: Seq<(Ext, Ext)>,
    path: Vec<[u8; 32]>,
    v: bool,
) -> bool {
    exists|d: Vec<Dimensions>, rows: Vec<Vec<Challenge>>| #[trigger]
        d@ == dims && #[trigger] rows_are_pairs(rows@, pairs) && call_ensures(
            check,
            (&com, &d, index as usize, &rows, &path),
            v,
        )
}

/// A single matrix of height `2^log_height`.
pub open spec fn one_matrix(width: usize, log_height: int) -> Seq<Dimensions> {
    seq![Dimensions { width, height: exp2(log_height as nat) as usize }]
}

/// The height of the quotient codeword of a single chunk.
pub open spec fn single_quotient_height(ri: RoInput) -> int {
    ri.proof.degree_bits + 1 + ri.chal.log_blowup
}

/// What checking round `k` of a query may return.
pub open spec fn commit_round<
    C: Fn(&Vec<[u8; 32]>, &Vec<Dimensions>, usize, &Vec<Vec<Challenge>>, &Vec<[u8; 32]>) -> bool,
>(
    check: C,
    q: int,
    c: ChainInput,
    commits: Seq<Vec<[u8; 32]>>,
    k: int,
    r: Result<(), OpeningsError>,
) -> bool {
    let s = c.state(k as nat);
    let folded = s.log_height - 1;
    if c.rounds[k].sibling_values@.len() != 1 {
        r == Err::<(), OpeningsError>(
            OpeningsError::Chain(q as usize, FoldChainError::SiblingCount(k as usize)),
        )
    } else if !x_fold_ok(s.index / 2, folded) {
        r == Err::<(), OpeningsError>(
            OpeningsError::Chain(q as usize, FoldChainError::Height(k as usize)),
        )
    } else {
        exists|v: bool| #[trigger]
            chal_verdict(
                check,
                commits[k],
                one_matrix(2, folded),
                s.index / 2,
                seq![round_pair(s, c.ros, c.rounds[k].sibling_values@[0]@)],
                c.rounds[k].opening_proof,
                v,
            ) && r == (if v {
                Ok::<(), OpeningsError>(())
            } else {
                Err::<(), OpeningsError>(OpeningsError::Commit(q as usize, k as usize))
            })
    }
}

/// Why the rounds of a query cannot be checked, if so.
pub open spec fn commit_shape_report(
    q: int,
    c: ChainInput,
    commits: Seq<Vec<[u8; 32]>>,
) -> Option<OpeningsError> {
    if c.rounds.len() != c.betas.len() || c.rounds.len() != commits.len() {
        Some(OpeningsError::RoundCount(q as usize))
    } else if c.rounds.len() > AGG_FRI_MAX_ROUNDS {
        Some(
            OpeningsError::Chain(
                q as usize,
                FoldChainError::TooManyRounds(c.rounds.len() as usize),
            ),
        )
    } else if exists|r: int| 0 <= r < c.rounds.len() && (#[trigger] c.rounds[r]).log_arity != 1 {
        Some(OpeningsError::Chain(q as usize, FoldChainError::Arity))
    } else {
        None
    }
}

/// Where the chain of a query does not end as it must, if so.
pub open spec fn commit_end_report(q: int, c: ChainInput) -> Option<OpeningsError> {
    let end = c.state(c.rounds.len());
    if end.eval != c.final_poly {
        Some(OpeningsError::Chain(q as usize, FoldChainError::FinalPoly))
    } else if end.joined < c.ros.len() {
        Some(OpeningsError::Chain(q as usize, FoldChainError::UnusedOpenings))
    } else {
        None
    }
}

/// What checking the commit-phase openings of a query may return.
pub open spec fn commit_outcome<
    C: Fn(&Vec<[u8; 32]>, &Vec<Dimensions>, usize, &Vec<Vec<Challenge>>, &Vec<[u8; 32]>) -> bool,
>(
    check: C,
    q: int,
    c: ChainInput,
    commits: Seq<Vec<[u8; 32]>>,
    r: Result<(), OpeningsError>,
) -> bool {
    match commit_shape_report(q, c, commits) {
        Some(e) => r == Err::<(), OpeningsError>(e),
        None => followed(
            |x: Result<(), OpeningsError>|
                in_turn(
                    c.rounds.len(),
                    |k: int, y: Result<(), OpeningsError>|
                        commit_round(check, q, c, commits, k, y),
                    x,
                ),
            |x: Result<(), OpeningsError>| crate::checks::checked(x, commit_end_report(q, c)),
            r,
        ),
    }
}

/// What the first-layer check of a query may return.
pub open spec fn first_layer_verdict<
    C: Fn(&Vec<[u8; 32]>, &Vec<Dimensions>, usize, &Vec<Vec<Challenge>>, &Vec<[u8; 32]>) -> bool,
>(check: C, ri: RoInput, v: bool) -> bool {
    let n = ri.sums().len();
    chal_verdict(
        check,
        ri.view.first_layer_commitment,
        Seq::new(
            n,
            |k: int|
                Dimensions { width: 2, height: exp2((ri.sums()[k].0 - 1) as nat) as usize },
        ),
        ri.query_index() / 2,
        Seq::new(n, |k: int| ri.pair(k)),
        ri.input().first_layer_proof,
        v,
    )
}

/// What checking the openings of a query may return.
pub open spec fn query_openings<
    V: Fn(&Vec<[u8; 32]>, &Vec<Dimensions>, usize, &Vec<Vec<Val>>, &Vec<[u8; 32]>) -> bool,
    C: Fn(&Vec<[u8; 32]>, &Vec<Dimensions>, usize, &Vec<Vec<Challenge>>, &Vec<[u8; 32]>) -> bool,
>(val_check: V, chal_check: C, ri: RoInput, r: Result<(), OpeningsError>) -> bool {
    let q = ri.query as usize;
    let th = ri.trace_height();
    let qh = single_quotient_height(ri);
    let openings = ri.input().input_openings@;
    if openings.len() != 2 {
        r == Err::<(), OpeningsError>(OpeningsError::InputBatches(q))
    } else {
        exists|t: bool| #[trigger]
            val_verdict(
                val_check,
                ri.proof.trace_commitment,
                one_matrix(AGG_WIDTH, th),
                ri.index_at(th),
                openings[0],
                t,
            ) && (if !t {
                r == Err::<(), OpeningsError>(OpeningsError::Trace(q))
            } else {
                exists|w: bool| #[trigger]
                    val_verdict(
                        val_check,
                        ri.proof.quotient_commitment,
                        one_matrix(EF_DIM, qh),
                        ri.index_at(qh),
                        openings[1],
                        w,
                    ) && (if !w {
                        r == Err::<(), OpeningsError>(OpeningsError::Quotient(q))
                    } else {
                        match ri.report(AGG_WIDTH) {
                            Some(e) => r == Err::<(), OpeningsError>(
                                OpeningsError::Openings(q, e),
                            ),
                            None => exists|f: bool| #[trigger]
                                first_layer_verdict(chal_check, ri, f) && (if !f {
                                    r == Err::<(), OpeningsError>(OpeningsError::FirstLayer(q))
                                } else {
                                    commit_outcome(
                                        chal_check,
                                        ri.query,
                                        ri_chain(ri),
                                        ri.view.fri_proof.commit_phase_commits@,
                                        r,
                                    )
                                }),
                        }
                    })
            })
    }
}

/// Why the queries of a proof cannot be checked, if so.
pub open spec fn openings_shape_report(proof: StarkProofView, chal: AggFriChallenges) -> Option<
    OpeningsError,
> {
    let ri = query_of(proof, chal, 0);
    if single_quotient_height(ri) > ri.log_max_height() || single_quotient_height(ri) > 30 {
        Some(OpeningsError::Height)
    } else if proof.opening_proof.fri_proof.query_proofs@.len() != chal.query_indices@.len() {
        Some(OpeningsError::QueryCount)
    } else {
        None
    }
}

/// What checking the openings of a proof may return, given the challenges.
pub open spec fn openings_outcome<
    V: Fn(&Vec<[u8; 32]>, &Vec<Dimensions>, usize, &Vec<Vec<Val>>, &Vec<[u8; 32]>) -> bool,
    C: Fn(&Vec<[u8; 32]>, &Vec<Dimensions>, usize, &Vec<Vec<Challenge>>, &Vec<[u8; 32]>) -> bool,
>(
    val_check: V,
    chal_check: C,
    proof: StarkProofView,
    chal: AggFriChallenges,
    r: Result<(), OpeningsError>,
) -> bool {
    match openings_shape_report(proof, chal) {
        Some(e) => r == Err::<(), OpeningsError>(e),
        None => in_turn(
            chal.query_indices@.len(),
            |q: int, x: Result<(), OpeningsError>|
                query_openings(val_check, chal_check, query_of(proof, chal, q), x),
            r,
        ),
    }
}

/// A single matrix of height `2^log_height`.
fn one_dimension(width: usize, log_height: usize) -> (r: Vec<Dimensions>)
    requires
        log_height <= 30,
    ensures
        r@ == one_matrix(width, log_height as int),
{
    proof {
        lemma_exp2_monotone(log_height as nat, 30);
        lemma_exp2_30();
    }
    let mut r: Vec<Dimensions> = Vec::new();
    r.push(Dimensions { width, height: pow2_usize(log_height) });
    proof {
        assert(r@ =~= one_matrix(width, log_height as int));
    }
    r
}

/// A pair as a row.
fn pair_to_row(v0: Challenge, v1: Challenge) -> (r: Vec<Challenge>)
    ensures
        evals_of(r@) == seq![v0@, v1@],
{
    let mut r: Vec<Challenge> = Vec::new();
    r.push(v0);
    r.push(v1);
    proof {
        assert(evals_of(r@) =~= seq![v0@, v1@]);
    }
    r
}

/// Checks the first-layer opening of a query.
fn check_first_layer<
    C: Fn(&Vec<[u8; 32]>, &Vec<Dimensions>, usize, &Vec<Vec<Challenge>>, &Vec<[u8; 32]>) -> bool,
>(
    check: &C,
    com: &Vec<[u8; 32]>,
    path: &Vec<[u8; 32]>,
    index: usize,
    fold_ys: &Vec<FoldYWitness>,
    Ghost(ri): Ghost<RoInput>,
    Ghost(ros): Ghost<Seq<(usize, Challenge)>>,
) -> (v: bool)
    requires
        chal_check_ready(*check),
        ri.is_result(ros, fold_ys@),
        forall|k: int| 0 <= k < ri.sums().len() ==> 1 <= (#[trigger] ri.sums()[k]).0 <= 30,
        *com == ri.view.first_layer_commitment,
        *path == ri.input().first_layer_proof,
        index == ri.query_index() / 2,
    ensures
        first_layer_verdict(*check, ri, v),
{
    let ghost n = ri.sums().len();
    let ghost want_dims = Seq::new(
        n,
        |k: int| Dimensions { width: 2, height: exp2((ri.sums()[k].0 - 1) as nat) as usize },
    );
    let ghost want = Seq::new(n, |k: int| ri.pair(k));
    let mut dims: Vec<Dimensions> = Vec::new();
    let mut rows: Vec<Vec<Challenge>> = Vec::new();
    let mut k: usize = 0;
    while k < fold_ys.len()
        invariant
            k <= fold_ys.len(),
            ri.is_result(ros, fold_ys@),
            forall|k: int| 0 <= k < ri.sums().len() ==> 1 <= (#[trigger] ri.sums()[k]).0 <= 30,
            n == ri.sums().len(),
            want_dims == Seq::new(
                n,
                |k: int|
                    Dimensions { width: 2, height: exp2((ri.sums()[k].0 - 1) as nat) as usize },
            ),
            want == Seq::new(n, |k: int| ri.pair(k)),
            dims@ == want_dims.take(k as int),
            rows_are_pairs(rows@, want.take(k as int)),
        decreases fold_ys.len() - k,
    {
        let w = &fold_ys[k];
        proof {
            assert(fold_ys@[k as int].log_folded_height == ri.sums()[k as int].0 - 1);
            lemma_exp2_monotone(w.log_folded_height as nat, 30);
            lemma_exp2_30();
        }
        rows.push(pair_to_row(w.v0, w.v1));
        dims.push(Dimensions { width: 2, height: pow2_usize(w.log_folded_height) });
        k += 1;
        proof {
            assert(dims@ =~= want_dims.take(k as int));
        }
    }
    proof {
        assert(dims@ =~= want_dims);
        assert(want.take(k as int) =~= want);
    }
    check(com, &dims, index, &rows, path)
}

/// Checks the commit-phase openings of a query.
fn verify_commit_phase_mmcs<
    C: Fn(&Vec<[u8; 32]>, &Vec<Dimensions>, usize, &Vec<Vec<Challenge>>, &Vec<[u8; 32]>) -> bool,
>(
    check: &C,
    q: usize,
    rounds: &Vec<CommitPhaseStepView>,
    commits: &Vec<Vec<[u8; 32]>>,
    betas: &Vec<Challenge>,
    start: ChainCursor,
    reduced: &Vec<(usize, Challenge)>,
    final_poly: &Challenge,
    Ghost(c): Ghost<ChainInput>,
) -> (r: Result<(), OpeningsError>)
    requires
        chal_check_ready(*check),
        c.rounds == rounds@,
        c.betas == evals_of(betas@),
        c.ros == ro_views(reduced@),
        c.final_poly == final_poly@,
        start@ == c.state(0),
    ensures
        commit_outcome(*check, q as int, c, commits@, r),
{
    if rounds.len() != betas.len() || rounds.len() != commits.len() {
        return Err(OpeningsError::RoundCount(q));
    }
    if rounds.len() > AGG_FRI_MAX_ROUNDS {
        return Err(OpeningsError::Chain(q, FoldChainError::TooManyRounds(rounds.len())));
    }
    if !crate::fri_fold_bind::all_pairs(rounds) {
        return Err(OpeningsError::Chain(q, FoldChainError::Arity));
    }
    let ghost step = |k: int, y: Result<(), OpeningsError>|
        commit_round(*check, q as int, c, commits@, k, y);
    let ghost turns = |x: Result<(), OpeningsError>| in_turn(c.rounds.len(), step, x);
    let mut cur: ChainCursor = start;
    let mut round: usize = 0;
    while round < rounds.len()
        invariant
            round <= rounds.len(),
            chal_check_ready(*check),
            c.rounds == rounds@,
            c.betas == evals_of(betas@),
            c.ros == ro_views(reduced@),
            rounds.len() == betas.len(),
            rounds.len() == commits.len(),
            commit_shape_report(q as int, c, commits@) is None,
            step == (|k: int, y: Result<(), OpeningsError>|
                commit_round(*check, q as int, c, commits@, k, y)),
            turns == (|x: Result<(), OpeningsError>| in_turn(c.rounds.len(), step, x)),
            cur@ == c.state(round as nat),
            cur.joined <= reduced@.len(),
            forall|j: int| 0 <= j < round ==> #[trigger] step(j, Ok(())),
        decreases rounds.len() - round,
    {
        let opening = &rounds[round];
        if opening.sibling_values.len() != 1 {
            let e = OpeningsError::Chain(q, FoldChainError::SiblingCount(round));
            proof {
                lemma_turn_fails(c.rounds.len(), step, round as int, e);
                assert(turns(Err(e)));
            }
            return Err(e);
        }
        let sibling: Challenge = opening.sibling_values[0];
        if !cur.foldable() {
            let e = OpeningsError::Chain(q, FoldChainError::Height(round));
            proof {
                lemma_turn_fails(c.rounds.len(), step, round as int, e);
                assert(turns(Err(e)));
            }
            return Err(e);
        }
        let (v0, v1) = cur.pair(reduced.as_slice(), sibling);
        let mut rows: Vec<Vec<Challenge>> = Vec::new();
        rows.push(pair_to_row(v0, v1));
        let dims = one_dimension(2, cur.log_height - 1);
        let ghost pairs = seq![round_pair(cur@, c.ros, sibling@)];
        proof {
            assert(rows_are_pairs(rows@, pairs));
        }
        let v: bool = check(&commits[round], &dims, cur.index / 2, &rows, &opening.opening_proof);
        proof {
            assert(chal_verdict(
                *check,
                commits@[round as int],
                one_matrix(2, cur@.log_height - 1),
                cur@.index / 2,
                pairs,
                opening.opening_proof,
                v,
            ));
        }
        if !v {
            let e = OpeningsError::Commit(q, round);
            proof {
                lemma_turn_fails(c.rounds.len(), step, round as int, e);
                assert(turns(Err(e)));
            }
            return Err(e);
        }
        proof {
            assert(step(round as int, Ok(())));
            assert(c.betas[round as int] == betas@[round as int]@);
        }
        cur = cur.advance(reduced.as_slice(), betas[round], sibling);
        round += 1;
    }
    proof {
        assert(turns(Ok(())));
    }
    if !cur.eval.same(final_poly) {
        return Err(OpeningsError::Chain(q, FoldChainError::FinalPoly));
    }
    if cur.joined < reduced.len() {
        return Err(OpeningsError::Chain(q, FoldChainError::UnusedOpenings));
    }
    Ok(())
}

/// Checks the openings of one query.
fn verify_query_openings<
    V: Fn(&Vec<[u8; 32]>, &Vec<Dimensions>, usize, &Vec<Vec<Val>>, &Vec<[u8; 32]>) -> bool,
    C: Fn(&Vec<[u8; 32]>, &Vec<Dimensions>, usize, &Vec<Vec<Challenge>>, &Vec<[u8; 32]>) -> bool,
>(
    val_check: &V,
    chal_check: &C,
    proof: &StarkProofView,
    chal: &AggFriChallenges,
    q: usize,
) -> (r: Result<(), OpeningsError>)
    requires
        val_check_ready(*val_check),
        chal_check_ready(*chal_check),
        rounds_fit(proof.opening_proof, chal.log_blowup),
        openings_shape_report(*proof, *chal) is None,
        q < chal.query_indices@.len(),
    ensures
        query_openings(*val_check, *chal_check, query_of(*proof, *chal, q as int), r),
{
    let view = &proof.opening_proof;
    let ghost ri = query_of(*proof, *chal, q as int);
    let ghost c = ri_chain(ri);
    let query_index: usize = chal.query_indices[q];
    let qp = &view.fri_proof.query_proofs[q];
    let openings = &qp.input_proof.input_openings;
    if openings.len() != 2 {
        return Err(OpeningsError::InputBatches(q));
    }
    let above: usize = view.fri_proof.commit_phase_commits.len() + 1;
    let trace_dims = one_dimension(AGG_WIDTH, proof.degree_bits + chal.log_blowup);
    let t: bool = val_check(
        &proof.trace_commitment,
        &trace_dims,
        shift_right(query_index, above - proof.degree_bits),
        &openings[0].opened_values,
        &openings[0].opening_proof,
    );
    proof {
        assert(val_verdict(
            *val_check,
            ri.proof.trace_commitment,
            one_matrix(AGG_WIDTH, ri.trace_height()),
            ri.index_at(ri.trace_height()),
            openings@[0],
            t,
        ));
    }
    if !t {
        return Err(OpeningsError::Trace(q));
    }
    let quot_dims = one_dimension(EF_DIM, proof.degree_bits + 1 + chal.log_blowup);
    let w: bool = val_check(
        &proof.quotient_commitment,
        &quot_dims,
        shift_right(query_index, above - (proof.degree_bits + 1)),
        &openings[1].opened_values,
        &openings[1].opening_proof,
    );
    proof {
        assert(val_verdict(
            *val_check,
            ri.proof.quotient_commitment,
            one_matrix(EF_DIM, single_quotient_height(ri)),
            ri.index_at(single_quotient_height(ri)),
            openings@[1],
            w,
        ));
    }
    if !w {
        return Err(OpeningsError::Quotient(q));
    }
    let (reduced, fold_ys) = match reconstruct_agg_query_ro(proof, chal, view, q) {
        Ok(x) => x,
        Err(e) => {
            return Err(OpeningsError::Openings(q, e));
        },
    };
    proof {
        crate::chal_mmcs::lemma_sum_heights(ri, AGG_WIDTH);
        assert(ro_views(reduced@) =~= folded_openings(ri));
    }
    let f: bool = check_first_layer(
        chal_check,
        &view.first_layer_commitment,
        &qp.input_proof.first_layer_proof,
        query_index / 2,
        &fold_ys,
        Ghost(ri),
        Ghost(reduced@),
    );
    if !f {
        return Err(OpeningsError::FirstLayer(q));
    }
    let start = ChainCursor::start(
        query_index,
        chal.extra_query_index_bits,
        qp.commit_phase_openings.len(),
        chal.log_blowup,
    );
    verify_commit_phase_mmcs(
        chal_check,
        q,
        &qp.commit_phase_openings,
        &view.fri_proof.commit_phase_commits,
        &chal.betas,
        start,
        &reduced,
        &view.fri_proof.final_poly,
        Ghost(c),
    )
}

/// Checks the openings of an aggregation proof against its commitments, given the challenges.
pub fn verify_fri_openings_with_challenges<
    V: Fn(&Vec<[u8; 32]>, &Vec<Dimensions>, usize, &Vec<Vec<Val>>, &Vec<[u8; 32]>) -> bool,
    C: Fn(&Vec<[u8; 32]>, &Vec<Dimensions>, usize, &Vec<Vec<Challenge>>, &Vec<[u8; 32]>) -> bool,
>(proof: &StarkProofView, chal: &AggFriChallenges, val_check: &V, chal_check: &C) -> (r: Result<
    (),
    OpeningsError,
>)
    requires
        val_check_ready(*val_check),
        chal_check_ready(*chal_check),
        rounds_fit(proof.opening_proof, chal.log_blowup),
    ensures
        openings_outcome(*val_check, *chal_check, *proof, *chal, r),
{
    let above: usize = proof.opening_proof.fri_proof.commit_phase_commits.len() + 1;
    if proof.degree_bits > 30 || chal.log_blowup > 30 || proof.degree_bits + 1 > above
        || proof.degree_bits + 1 + chal.log_blowup > 30 {
        return Err(OpeningsError::Height);
    }
    if proof.opening_proof.fri_proof.query_proofs.len() != chal.query_indices.len() {
        return Err(OpeningsError::QueryCount);
    }
    let ghost step = |q: int, x: Result<(), OpeningsError>|
        query_openings(*val_check, *chal_check, query_of(*proof, *chal, q), x);
    let mut q: usize = 0;
    while q < chal.query_indices.len()
        invariant
            q <= chal.query_indices.len(),
            val_check_ready(*val_check),
            chal_check_ready(*chal_check),
            rounds_fit(proof.opening_proof, chal.log_blowup),
            openings_shape_report(*proof, *chal) is None,
            step == (|q: int, x: Result<(), OpeningsError>|
                query_openings(*val_check, *chal_check, query_of(*proof, *chal, q), x)),
            forall|j: int| 0 <= j < q ==> #[trigger] step(j, Ok(())),
        decreases chal.query_indices.len() - q,
    {
        let x = verify_query_openings(val_check, chal_check, proof, chal, q);
        proof {
            assert(step(q as int, x));
        }
        if let Err(e) = x {
            proof {
                lemma_turn_fails(chal.query_indices@.len(), step, q as int, e);
            }
            return Err(e);
        }
        q += 1;
    }
    Ok(())
}

/// What checking the openings of an aggregation proof may return.
pub open spec fn agg_openings_outcome<
    V: Fn(&Vec<[u8; 32]>, &Vec<Dimensions>, usize, &Vec<Vec<Val>>, &Vec<[u8; 32]>) -> bool,
    C: Fn(&Vec<[u8; 32]>, &Vec<Dimensions>, usize, &Vec<Vec<Challenge>>, &Vec<[u8; 32]>) -> bool,
>(
    val_check: V,
    chal_check: C,
    proof: StarkProofView,
    params: FriParamsView,
    r: Result<(), OpeningsError>,
) -> bool {
    match replay_report(proof, AGG_WIDTH, params) {
        Some(e) => r == Err::<(), OpeningsError>(OpeningsError::Replay(e)),
        None => exists|chal: AggFriChallenges| #[trigger]
            is_replay(chal, proof, params) && openings_outcome(
                val_check,
                chal_check,
                proof,
                chal,
                r,
            ),
    }
}

/// Checks the openings of an aggregation proof against its commitments.
pub fn verify_agg_fri_openings<
    V: Fn(&Vec<[u8; 32]>, &Vec<Dimensions>, usize, &Vec<Vec<Val>>, &Vec<[u8; 32]>) -> bool,
    C: Fn(&Vec<[u8; 32]>, &Vec<Dimensions>, usize, &Vec<Vec<Challenge>>, &Vec<[u8; 32]>) -> bool,
>(proof: &StarkProofView, params: &FriParamsView, val_check: &V, chal_check: &C) -> (r: Result<
    (),
    OpeningsError,
>)
    requires
        params_ok(*params),
        val_check_ready(*val_check),
        chal_check_ready(*chal_check),
        rounds_fit(proof.opening_proof, params.log_blowup),
    ensures
        agg_openings_outcome(*val_check, *chal_check, *proof, *params, r),
{
    let chal = match replay_agg_fri_challenges(proof, params) {
        Ok(c) => c,
        Err(e) => {
            return Err(OpeningsError::Replay(e));
        },
    };
    proof {
        assert(is_replay(chal, *proof, *params));
    }
    verify_fri_openings_with_challenges(proof, &chal, val_check, chal_check)
}

} // verus!
