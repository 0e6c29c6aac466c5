//! First-layer and commit-phase openings of a proof's queries, recorded as paths and checked
//! again.
use vstd::prelude::*;

use crate::batch_path::{
    verify_chal_batch_path_digests, verify_chal_batch_path_replay, Batch, BatchError, Dimensions, FriChalBatchPathProof,
};
use crate::bits::{exp2, lemma_exp2_monotone, pow2_usize};
use crate::checks::{checked, first_some, lemma_first_some_none, lemma_first_some_stops};
use crate::circle::lemma_exp2_30;
use crate::ext::{evals_of, Challenge, Ext};
use crate::field::{vals, Val};
use crate::flag_air::{ext_seq, push_challenge};
use crate::fri_fold_bind::{
    folded_openings, ri_chain, ro_views, round_pair, ChainCursor, ChainInput,
};
use crate::fri_fold_native::x_fold_ok;
use crate::fri_fs_replay::{
    fri_queries_from_proof, is_replay, params_ok, query_count_ok, replay_fri_challenges,
    replay_report, AggFriChallenges, ReplayError,
};
use crate::fri_mmcs_path::{
    is_path_record, path_fault, path_record_valid, verify_fri_mmcs_path_proof, FriMmcsPathProof,
    PathError,
};
use crate::fri_ro::{reconstruct_query_ro, FoldYWitness, RoError, RoInput};
use crate::merkle::{copy_digests, same_digests};
use crate::path_strip::{path_digests_valid, verify_fri_mmcs_path_digests};
use crate::pcs_view::{
    CirclePcsProofView, CommitPhaseStepView, FriParamsView, StarkProofView,
};
use crate::val_mmcs::{query_of, record_batch, record_path};

verus! {

/// Base elements of a pair of extension elements.
pub const CHAL_LEAF_WIDTH: usize = 6;

/// The first-layer and commit-phase paths of one query.
#[derive(Debug, Clone, PartialEq, Eq)]
pub struct FriChalMmcsQueryProof {
    pub first_layer: FriChalBatchPathProof,
    pub commit_indices: Vec<u32>,
    pub commit_siblings: Vec<Vec<[u8; 32]>>,
    pub commit_paths: Vec<FriMmcsPathProof>,
}

/// Why the path of a commit-phase round was not recorded, or is not that of a query.
#[derive(Debug, Clone, Copy, PartialEq, Eq)]
pub enum RoundError {
    Sibling(usize),
    /// The round has no commitment root.
    Commitment(usize),
    Path(usize, PathError),
    /// Position, siblings or depth differ from the opening.
    Meta(usize),
    Check(usize),
    Digests(usize),
    Beta(usize),
    /// The fold of the round has no twiddle.
    Height(usize),
}

/// Why first-layer and commit-phase paths were not recorded, or do not belong to a proof.
#[derive(Debug, Clone, PartialEq, Eq)]
pub enum ChalMmcsError {
    Replay(ReplayError),
    /// The number of records is not that of the queries.
    Length(usize),
    FirstLayerRoot,
    Openings(usize, RoError),
    FirstLayer(usize, BatchError),
    FirstLayerSiblings(usize),
    FirstLayerCheck(usize),
    FirstLayerDigests(usize),
    PathCount(usize),
    Round(usize, RoundError),
}

/// Rounds and heights whose sums are machine numbers.
pub open spec fn rounds_fit(view: CirclePcsProofView, log_blowup: usize) -> bool {
    &&& view.fri_proof.commit_phase_commits@.len() + log_blowup + 1 <= usize::MAX
    &&& forall|q: int|
        0 <= q < view.fri_proof.query_proofs@.len()
            ==> (#[trigger] view.fri_proof.query_proofs@[q]).commit_phase_openings@.len()
            + log_blowup <= usize::MAX
}

/// A pair as a row of base elements.
pub open spec fn pair_row(pair: (Ext, Ext)) -> Seq<int> {
    ext_seq(pair.0) + ext_seq(pair.1)
}

/// The first-layer opening of a query with the given siblings.
pub open spec fn first_layer_batch(ri: RoInput, siblings: Seq<[u8; 32]>) -> Batch {
    let n = ri.sums().len();
    Batch {
        rows: Seq::new(n, |k: int| pair_row(ri.pair(k))),
        dims: Seq::new(
            n,
            |k: int|
                Dimensions {
                    width: CHAL_LEAF_WIDTH,
                    height: exp2((ri.sums()[k].0 - 1) as nat) as usize,
                },
        ),
        siblings,
        index: ri.query_index() / 2,
    }
}

/// The row opened in round `r`.
pub open spec fn round_row(c: ChainInput, r: int) -> Seq<int> {
    pair_row(round_pair(c.state(r as nat), c.ros, c.rounds[r].sibling_values@[0]@))
}

/// The position opened in round `r`.
pub open spec fn round_position(c: ChainInput, r: int) -> int {
    c.state(r as nat).index / 2
}

/// Why the row of round `r` cannot be read, if so.
pub open spec fn round_open_report(
    c: ChainInput,
    commits: Seq<Vec<[u8; 32]>>,
    r: int,
) -> Option<RoundError> {
    if c.rounds[r].sibling_values@.len() == 0 {
        Some(RoundError::Sibling(r as usize))
    } else if r >= commits.len() || commits[r]@.len() == 0 {
        Some(RoundError::Commitment(r as usize))
    } else {
        None
    }
}

/// Why round `r` cannot be folded, if so.
pub open spec fn round_fold_report(c: ChainInput, r: int) -> Option<RoundError> {
    if r >= c.betas.len() {
        Some(RoundError::Beta(r as usize))
    } else if !x_fold_ok(round_position(c, r), c.state(r as nat).log_height - 1) {
        Some(RoundError::Height(r as usize))
    } else {
        None
    }
}

/// Why the path of round `r` cannot be recorded, if so.
pub open spec fn round_record_report(
    c: ChainInput,
    commits: Seq<Vec<[u8; 32]>>,
    r: int,
) -> Option<RoundError> {
    let path = path_fault(
        round_row(c, r),
        c.rounds[r].opening_proof@,
        round_position(c, r),
        commits[r]@[0]@,
    );
    if round_open_report(c, commits, r) is Some {
        round_open_report(c, commits, r)
    } else if path is Some {
        Some(RoundError::Path(r as usize, path->0))
    } else {
        round_fold_report(c, r)
    }
}

/// Why the paths of a query cannot be recorded, if so.
pub open spec fn chal_query_report(ri: RoInput, width: usize) -> Option<ChalMmcsError> {
    let q = ri.query as usize;
    let c = ri_chain(ri);
    let commits = ri.view.fri_proof.commit_phase_commits@;
    let batch = first_layer_batch(ri, ri.input().first_layer_proof@).report(
        ri.view.first_layer_commitment@[0]@,
    );
    let rounds = first_some(c.rounds.len(), |r: int| round_record_report(c, commits, r));
    if ri.report(width) is Some {
        Some(ChalMmcsError::Openings(q, ri.report(width)->0))
    } else if batch is Some {
        Some(ChalMmcsError::FirstLayer(q, batch->0))
    } else if rounds is Some {
        Some(ChalMmcsError::Round(q, rounds->0))
    } else {
        None
    }
}

/// The first `n` commit-phase paths of a query are recorded.
pub open spec fn rounds_recorded(
    c: ChainInput,
    indices: Seq<u32>,
    siblings: Seq<Vec<[u8; 32]>>,
    paths: Seq<FriMmcsPathProof>,
    n: nat,
) -> bool {
    &&& indices.len() == n
    &&& siblings.len() == n
    &&& paths.len() == n
    &&& forall|r: int| 0 <= r < n ==> (#[trigger] indices[r]) == round_position(c, r) as u32
    &&& forall|r: int| 0 <= r < n ==> (#[trigger] siblings[r])@ == c.rounds[r].opening_proof@
    &&& forall|r: int|
        0 <= r < n ==> is_path_record(
            #[trigger] paths[r],
            round_row(c, r),
            c.rounds[r].opening_proof@,
            round_position(c, r),
        )
}

/// `p` records the paths of a query.
pub open spec fn is_chal_record(ri: RoInput, p: FriChalMmcsQueryProof) -> bool {
    let c = ri_chain(ri);
    &&& first_layer_batch(ri, ri.input().first_layer_proof@).is_record(p.first_layer)
    &&& rounds_recorded(
        c,
        p.commit_indices@,
        p.commit_siblings@,
        p.commit_paths@,
        c.rounds.len(),
    )
}

/// What recording the paths of all queries returns, given the challenges.
pub open spec fn chal_bundle_outcome(
    proof: StarkProofView,
    chal: AggFriChallenges,
    width: usize,
    r: Result<Vec<FriChalMmcsQueryProof>, ChalMmcsError>,
) -> bool {
    let n = proof.opening_proof.fri_proof.query_proofs@.len();
    let queries = first_some(n, |q: int| chal_query_report(query_of(proof, chal, q), width));
    if proof.opening_proof.first_layer_commitment@.len() == 0 {
        r == Err::<Vec<FriChalMmcsQueryProof>, ChalMmcsError>(ChalMmcsError::FirstLayerRoot)
    } else if !query_count_ok(proof) {
        r == Err::<Vec<FriChalMmcsQueryProof>, ChalMmcsError>(
            ChalMmcsError::Replay(ReplayError::QueryCount(n as usize)),
        )
    } else if queries is Some {
        r == Err::<Vec<FriChalMmcsQueryProof>, ChalMmcsError>(queries->0)
    } else {
        r matches Ok(v) && v@.len() == n && forall|q: int|
            0 <= q < n ==> is_chal_record(query_of(proof, chal, q), #[trigger] v@[q])
    }
}

/// A pair as a row of base elements.
pub fn flatten_pair(v0: &Challenge, v1: &Challenge) -> (r: Vec<Val>)
    ensures
        vals(r@) == pair_row((v0@, v1@)),
{
    let mut r: Vec<Val> = Vec::new();
    push_challenge(&mut r, v0);
    push_challenge(&mut r, v1);
    proof {
        assert(vals(r@) =~= pair_row((v0@, v1@)));
    }
    r
}

/// The rows and shapes of the first layer of a query.
pub(crate) fn first_layer_rows(fold_ys: &Vec<FoldYWitness>, Ghost(ri): Ghost<RoInput>, Ghost(ros): Ghost<
    Seq<(usize, Challenge)>,
>) -> (r: (Vec<Vec<Val>>, Vec<Dimensions>))
    requires
        ri.is_result(ros, fold_ys@),
        forall|k: int| 0 <= k < ri.sums().len() ==> 1 <= (#[trigger] ri.sums()[k]).0 <= 30,
    ensures
        crate::batch_path::row_views(r.0@) == first_layer_batch(ri, Seq::empty()).rows,
        r.1@ == first_layer_batch(ri, Seq::empty()).dims,
{
    let ghost b = first_layer_batch(ri, Seq::empty());
    let mut rows: Vec<Vec<Val>> = Vec::new();
    let mut dims: Vec<Dimensions> = Vec::new();
    let mut k: usize = 0;
    while k < fold_ys.len()
        invariant
            k <= fold_ys.len(),
            ri.is_result(ros, fold_ys@),
            forall|k: int| 0 <= k < ri.sums().len() ==> 1 <= (#[trigger] ri.sums()[k]).0 <= 30,
            b == first_layer_batch(ri, Seq::empty()),
            rows@.len() == k,
            dims@ == b.dims.take(k as int),
            forall|j: int| 0 <= j < k ==> vals((#[trigger] rows@[j])@) == b.rows[j],
        decreases fold_ys.len() - k,
    {
        let w = &fold_ys[k];
        proof {
            assert(fold_ys@[k as int].log_folded_height == ri.sums()[k as int].0 - 1);
            lemma_exp2_monotone(w.log_folded_height as nat, 30);
            lemma_exp2_30();
        }
        rows.push(flatten_pair(&w.v0, &w.v1));
        dims.push(
            Dimensions { width: CHAL_LEAF_WIDTH, height: pow2_usize(w.log_folded_height) },
        );
        k += 1;
        proof {
            assert(dims@ =~= b.dims.take(k as int));
        }
    }
    proof {
        assert(crate::batch_path::row_views(rows@) =~= b.rows);
        assert(dims@ =~= b.dims);
    }
    (rows, dims)
}

/// Reduced openings have heights between one and thirty.
pub proof fn lemma_sum_heights(ri: RoInput, width: usize)
    requires
        ri.report(width) is None,
    ensures
        forall|k: int| 0 <= k < ri.sums().len() ==> 1 <= (#[trigger] ri.sums()[k]).0 <= 30,
{
    lemma_first_some_none(ri.chunks() as nat, |i: int| ri.chunk_report(i), 0);
    assert(ri.chunk_report(0) is None);
}

/// Records the commit-phase paths of a query.
fn record_rounds(
    rounds: &Vec<CommitPhaseStepView>,
    commits: &Vec<Vec<[u8; 32]>>,
    betas: &Vec<Challenge>,
    start: ChainCursor,
    reduced: &Vec<(usize, Challenge)>,
    drop_nested: bool,
    Ghost(c): Ghost<ChainInput>,
) -> (r: Result<(Vec<u32>, Vec<Vec<[u8; 32]>>, Vec<FriMmcsPathProof>), RoundError>)
    requires
        c.rounds == rounds@,
        c.betas == evals_of(betas@),
        c.ros == ro_views(reduced@),
        start@ == c.state(0),
    ensures
        match first_some(rounds@.len(), |r: int| round_record_report(c, commits@, r)) {
            Some(e) => r == Err::<(Vec<u32>, Vec<Vec<[u8; 32]>>, Vec<FriMmcsPathProof>), RoundError>(
                e,
            ),
            None => r matches Ok(out) && rounds_recorded(
                c,
                out.0@,
                out.1@,
                out.2@,
                rounds@.len(),
            ),
        },
{
    let ghost f = |r: int| round_record_report(c, commits@, r);
    let mut indices: Vec<u32> = Vec::new();
    let mut siblings: Vec<Vec<[u8; 32]>> = Vec::new();
    let mut paths: Vec<FriMmcsPathProof> = Vec::new();
    let mut cur: ChainCursor = start;
    let mut round: usize = 0;
    while round < rounds.len()
        invariant
            round <= rounds.len(),
            c.rounds == rounds@,
            c.betas == evals_of(betas@),
            c.ros == ro_views(reduced@),
            f == (|r: int| round_record_report(c, commits@, r)),
            first_some(round as nat, f) is None,
            cur@ == c.state(round as nat),
            cur.joined <= reduced@.len(),
            rounds_recorded(c, indices@, siblings@, paths@, round as nat),
        decreases rounds.len() - round,
    {
        proof {
            assert(first_some((round + 1) as nat, f) == f(round as int));
            if f(round as int) is Some {
                lemma_first_some_stops((round + 1) as nat, rounds@.len(), f);
            }
        }
        let opening = &rounds[round];
        if opening.sibling_values.len() == 0 {
            return Err(RoundError::Sibling(round));
        }
        if round >= commits.len() || commits[round].len() == 0 {
            return Err(RoundError::Commitment(round));
        }
        let sibling: Challenge = opening.sibling_values[0];
        let (v0, v1) = cur.pair(reduced.as_slice(), sibling);
        let row = flatten_pair(&v0, &v1);
        let index: usize = cur.index / 2;
        let path = match record_path(
            row.as_slice(),
            opening.opening_proof.as_slice(),
            index,
            &commits[round][0],
            drop_nested,
        ) {
            Ok(p) => p,
            Err(e) => {
                return Err(RoundError::Path(round, e));
            },
        };
        if round >= betas.len() {
            return Err(RoundError::Beta(round));
        }
        if !cur.foldable() {
            return Err(RoundError::Height(round));
        }
        indices.push(index as u32);
        siblings.push(copy_digests(opening.opening_proof.as_slice()));
        paths.push(path);
        proof {
            assert(c.betas[round as int] == betas@[round as int]@);
        }
        cur = cur.advance(reduced.as_slice(), betas[round], sibling);
        round += 1;
    }
    Ok((indices, siblings, paths))
}

/// Records the paths of one query.
fn chal_query_record(
    proof: &StarkProofView,
    chal: &AggFriChallenges,
    q: usize,
    width: usize,
    drop_nested: bool,
) -> (r: Result<FriChalMmcsQueryProof, ChalMmcsError>)
    requires
        rounds_fit(proof.opening_proof, chal.log_blowup),
        q < proof.opening_proof.fri_proof.query_proofs@.len(),
        proof.opening_proof.first_layer_commitment@.len() > 0,
    ensures
        ({
            let ri = query_of(*proof, *chal, q as int);
            match chal_query_report(ri, width) {
                Some(e) => r == Err::<FriChalMmcsQueryProof, ChalMmcsError>(e),
                None => r matches Ok(p) && is_chal_record(ri, p),
            }
        }),
{
    let view = &proof.opening_proof;
    let ghost ri = query_of(*proof, *chal, q as int);
    let ghost c = ri_chain(ri);
    let (reduced, fold_ys) = match reconstruct_query_ro(proof, chal, view, q, width) {
        Ok(x) => x,
        Err(e) => {
            return Err(ChalMmcsError::Openings(q, e));
        },
    };
    proof {
        lemma_sum_heights(ri, width);
        assert(ro_views(reduced@) =~= folded_openings(ri));
    }
    let query_index: usize = chal.query_indices[q];
    let qp = &view.fri_proof.query_proofs[q];
    let (rows, dims) = first_layer_rows(&fold_ys, Ghost(ri), Ghost(reduced@));
    let first_layer = match record_batch(
        rows.as_slice(),
        dims.as_slice(),
        query_index / 2,
        qp.input_proof.first_layer_proof.as_slice(),
        &view.first_layer_commitment[0],
        drop_nested,
    ) {
        Ok(b) => b,
        Err(e) => {
            return Err(ChalMmcsError::FirstLayer(q, e));
        },
    };
    let start = ChainCursor::start(
        query_index,
        chal.extra_query_index_bits,
        qp.commit_phase_openings.len(),
        chal.log_blowup,
    );
    match record_rounds(
        &qp.commit_phase_openings,
        &view.fri_proof.commit_phase_commits,
        &chal.betas,
        start,
        &reduced,
        drop_nested,
        Ghost(c),
    ) {
        Ok((commit_indices, commit_siblings, commit_paths)) => Ok(
            FriChalMmcsQueryProof { first_layer, commit_indices, commit_siblings, commit_paths },
        ),
        Err(e) => Err(ChalMmcsError::Round(q, e)),
    }
}

/// Records the first-layer and commit-phase paths of every query, given the challenges.
pub fn fri_chal_mmcs_bundle_with_challenges(
    proof: &StarkProofView,
    chal: &AggFriChallenges,
    trace_width: usize,
    drop_nested: bool,
) -> (r: Result<Vec<FriChalMmcsQueryProof>, ChalMmcsError>)
    requires
        rounds_fit(proof.opening_proof, chal.log_blowup),
    ensures
        chal_bundle_outcome(*proof, *chal, trace_width, r),
{
    if proof.opening_proof.first_layer_commitment.len() == 0 {
        return Err(ChalMmcsError::FirstLayerRoot);
    }
    let n: usize = match fri_queries_from_proof(proof) {
        Ok(n) => n,
        Err(e) => {
            return Err(ChalMmcsError::Replay(e));
        },
    };
    let ghost f = |q: int| chal_query_report(query_of(*proof, *chal, q), trace_width);
    let mut out: Vec<FriChalMmcsQueryProof> = Vec::new();
    let mut q: usize = 0;
    while q < n
        invariant
            q <= n,
            n == proof.opening_proof.fri_proof.query_proofs@.len(),
            rounds_fit(proof.opening_proof, chal.log_blowup),
            proof.opening_proof.first_layer_commitment@.len() > 0,
            query_count_ok(*proof),
            f == (|q: int| chal_query_report(query_of(*proof, *chal, q), trace_width)),
            first_some(q as nat, f) is None,
            out@.len() == q,
            forall|j: int|
                0 <= j < q ==> is_chal_record(query_of(*proof, *chal, j), #[trigger] out@[j]),
        decreases n - q,
    {
        proof {
            assert(first_some((q + 1) as nat, f) == f(q as int));
            if f(q as int) is Some {
                lemma_first_some_stops((q + 1) as nat, n as nat, f);
            }
        }
        match chal_query_record(proof, chal, q, trace_width, drop_nested) {
            Ok(p) => {
                out.push(p);
            },
            Err(e) => {
                return Err(e);
            },
        }
        q += 1;
    }
    Ok(out)
}

/// What recording the paths of a proof's queries returns.
pub open spec fn chal_proof_outcome(
    proof: StarkProofView,
    width: usize,
    params: FriParamsView,
    r: Result<Vec<FriChalMmcsQueryProof>, ChalMmcsError>,
) -> bool {
    match replay_report(proof, width, params) {
        Some(e) => r == Err::<Vec<FriChalMmcsQueryProof>, ChalMmcsError>(ChalMmcsError::Replay(e)),
        None => exists|chal: AggFriChallenges| #[trigger]
            is_replay(chal, proof, params) && chal_bundle_outcome(proof, chal, width, r),
    }
}

fn fri_chal_mmcs_bundle_from_proof_inner(
    proof: &StarkProofView,
    trace_width: usize,
    params: &FriParamsView,
    drop_nested: bool,
) -> (r: Result<Vec<FriChalMmcsQueryProof>, ChalMmcsError>)
    requires
        params_ok(*params),
        rounds_fit(proof.opening_proof, params.log_blowup),
    ensures
        chal_proof_outcome(*proof, trace_width, *params, r),
{
    let chal = match replay_fri_challenges(proof, trace_width, params) {
        Ok(c) => c,
        Err(e) => {
            return Err(ChalMmcsError::Replay(e));
        },
    };
    proof {
        assert(is_replay(chal, *proof, *params));
    }
    fri_chal_mmcs_bundle_with_challenges(proof, &chal, trace_width, drop_nested)
}

/// Records the first-layer and commit-phase paths of every query of a proof.
pub fn fri_chal_mmcs_bundle_from_proof(
    proof: &StarkProofView,
    trace_width: usize,
    params: &FriParamsView,
) -> (r: Result<Vec<FriChalMmcsQueryProof>, ChalMmcsError>)
    requires
        params_ok(*params),
        rounds_fit(proof.opening_proof, params.log_blowup),
    ensures
        chal_proof_outcome(*proof, trace_width, *params, r),
{
    fri_chal_mmcs_bundle_from_proof_inner(proof, trace_width, params, false)
}

/// As [`fri_chal_mmcs_bundle_from_proof`], without nested proof bytes.
pub fn fri_chal_mmcs_bundle_from_proof_drop_nested(
    proof: &StarkProofView,
    trace_width: usize,
    params: &FriParamsView,
) -> (r: Result<Vec<FriChalMmcsQueryProof>, ChalMmcsError>)
    requires
        params_ok(*params),
        rounds_fit(proof.opening_proof, params.log_blowup),
    ensures
        chal_proof_outcome(*proof, trace_width, *params, r),
{
    fri_chal_mmcs_bundle_from_proof_inner(proof, trace_width, params, true)
}

/// Where the path of round `r` differs from a query, if it does. A path is checked in full, or
/// by the digests it carries.
pub open spec fn round_bind_report(
    c: ChainInput,
    commits: Seq<Vec<[u8; 32]>>,
    p: FriChalMmcsQueryProof,
    by_digests: bool,
    r: int,
) -> Option<RoundError> {
    let siblings = p.commit_siblings@[r]@;
    let row = round_row(c, r);
    let root = commits[r]@[0]@;
    if round_open_report(c, commits, r) is Some {
        round_open_report(c, commits, r)
    } else if r >= p.commit_siblings@.len() || siblings != c.rounds[r].opening_proof@ || r
        >= p.commit_indices@.len() || p.commit_indices@[r] != round_position(c, r) {
        Some(RoundError::Meta(r as usize))
    } else if by_digests && !path_digests_valid(
        row,
        siblings,
        round_position(c, r),
        root,
        p.commit_paths@[r],
    ) {
        Some(RoundError::Digests(r as usize))
    } else if !by_digests && !path_record_valid(
        row,
        siblings,
        round_position(c, r),
        root,
        p.commit_paths@[r],
    ) {
        Some(RoundError::Check(r as usize))
    } else {
        round_fold_report(c, r)
    }
}

/// Where a record differs from a query, if it does. The first layer and each round are checked
/// in full, or by the digests they carry.
pub open spec fn chal_bind_report(
    ri: RoInput,
    width: usize,
    p: FriChalMmcsQueryProof,
    first_by_digests: bool,
    rounds_by_digests: Seq<bool>,
) -> Option<ChalMmcsError> {
    let q = ri.query as usize;
    let c = ri_chain(ri);
    let commits = ri.view.fri_proof.commit_phase_commits@;
    let root = ri.view.first_layer_commitment@[0]@;
    let batch = first_layer_batch(ri, p.first_layer.siblings@);
    let rounds = first_some(
        c.rounds.len(),
        |r: int| round_bind_report(c, commits, p, rounds_by_digests[r], r),
    );
    if ri.report(width) is Some {
        Some(ChalMmcsError::Openings(q, ri.report(width)->0))
    } else if p.first_layer.siblings@ != ri.input().first_layer_proof@ {
        Some(ChalMmcsError::FirstLayerSiblings(q))
    } else if first_by_digests && !batch.digests_valid(root, p.first_layer) {
        Some(ChalMmcsError::FirstLayerDigests(q))
    } else if !first_by_digests && !batch.replay_valid(root, p.first_layer) {
        Some(ChalMmcsError::FirstLayerCheck(q))
    } else if p.commit_paths@.len() != c.rounds.len() {
        Some(ChalMmcsError::PathCount(q))
    } else if rounds is Some {
        Some(ChalMmcsError::Round(q, rounds->0))
    } else {
        None
    }
}

/// Compares the commit-phase paths of a record with a query.
fn check_rounds(
    rounds: &Vec<CommitPhaseStepView>,
    commits: &Vec<Vec<[u8; 32]>>,
    betas: &Vec<Challenge>,
    start: ChainCursor,
    reduced: &Vec<(usize, Challenge)>,
    p: &FriChalMmcsQueryProof,
    by_digests: &Vec<bool>,
    Ghost(c): Ghost<ChainInput>,
) -> (r: Result<(), RoundError>)
    requires
        c.rounds == rounds@,
        c.betas == evals_of(betas@),
        c.ros == ro_views(reduced@),
        start@ == c.state(0),
        p.commit_paths@.len() == rounds@.len(),
        by_digests@.len() == rounds@.len(),
    ensures
        checked(
            r,
            first_some(
                rounds@.len(),
                |r: int| round_bind_report(c, commits@, *p, by_digests@[r], r),
            ),
        ),
{
    let ghost f = |r: int| round_bind_report(c, commits@, *p, by_digests@[r], r);
    let mut cur: ChainCursor = start;
    let mut round: usize = 0;
    while round < rounds.len()
        invariant
            round <= rounds.len(),
            c.rounds == rounds@,
            c.betas == evals_of(betas@),
            c.ros == ro_views(reduced@),
            p.commit_paths@.len() == rounds@.len(),
            by_digests@.len() == rounds@.len(),
            f == (|r: int| round_bind_report(c, commits@, *p, by_digests@[r], r)),
            first_some(round as nat, f) is None,
            cur@ == c.state(round as nat),
            cur.joined <= reduced@.len(),
        decreases rounds.len() - round,
    {
        proof {
            assert(first_some((round + 1) as nat, f) == f(round as int));
            if f(round as int) is Some {
                lemma_first_some_stops((round + 1) as nat, rounds@.len(), f);
            }
        }
        let opening = &rounds[round];
        if opening.sibling_values.len() == 0 {
            return Err(RoundError::Sibling(round));
        }
        if round >= commits.len() || commits[round].len() == 0 {
            return Err(RoundError::Commitment(round));
        }
        let sibling: Challenge = opening.sibling_values[0];
        let (v0, v1) = cur.pair(reduced.as_slice(), sibling);
        let row = flatten_pair(&v0, &v1);
        let index: usize = cur.index / 2;
        if round >= p.commit_siblings.len() || !same_digests(
            &p.commit_siblings[round],
            &opening.opening_proof,
        ) || round >= p.commit_indices.len() || p.commit_indices[round] as usize != index {
            return Err(RoundError::Meta(round));
        }
        if by_digests[round] {
            if !verify_fri_mmcs_path_digests(
                row.as_slice(),
                p.commit_siblings[round].as_slice(),
                index,
                &commits[round][0],
                &p.commit_paths[round],
            ) {
                return Err(RoundError::Digests(round));
            }
        } else if !verify_fri_mmcs_path_proof(
            row.as_slice(),
            p.commit_siblings[round].as_slice(),
            index,
            &commits[round][0],
            &p.commit_paths[round],
        ) {
            return Err(RoundError::Check(round));
        }
        if round >= betas.len() {
            return Err(RoundError::Beta(round));
        }
        if !cur.foldable() {
            return Err(RoundError::Height(round));
        }
        proof {
            assert(c.betas[round as int] == betas@[round as int]@);
        }
        cur = cur.advance(reduced.as_slice(), betas[round], sibling);
        round += 1;
    }
    Ok(())
}

/// Compares a record with a query.
pub fn check_chal_query(
    proof: &StarkProofView,
    chal: &AggFriChallenges,
    q: usize,
    width: usize,
    p: &FriChalMmcsQueryProof,
    first_by_digests: bool,
    rounds_by_digests: &Vec<bool>,
) -> (r: Result<(), ChalMmcsError>)
    requires
        rounds_fit(proof.opening_proof, chal.log_blowup),
        q < proof.opening_proof.fri_proof.query_proofs@.len(),
        proof.opening_proof.first_layer_commitment@.len() > 0,
        rounds_by_digests@.len() == p.commit_paths@.len(),
    ensures
        checked(
            r,
            chal_bind_report(
                query_of(*proof, *chal, q as int),
                width,
                *p,
                first_by_digests,
                rounds_by_digests@,
            ),
        ),
{
    let view = &proof.opening_proof;
    let ghost ri = query_of(*proof, *chal, q as int);
    let ghost c = ri_chain(ri);
    let (reduced, fold_ys) = match reconstruct_query_ro(proof, chal, view, q, width) {
        Ok(x) => x,
        Err(e) => {
            return Err(ChalMmcsError::Openings(q, e));
        },
    };
    proof {
        lemma_sum_heights(ri, width);
        assert(ro_views(reduced@) =~= folded_openings(ri));
    }
    let query_index: usize = chal.query_indices[q];
    let qp = &view.fri_proof.query_proofs[q];
    if !same_digests(&p.first_layer.siblings, &qp.input_proof.first_layer_proof) {
        return Err(ChalMmcsError::FirstLayerSiblings(q));
    }
    let (rows, dims) = first_layer_rows(&fold_ys, Ghost(ri), Ghost(reduced@));
    if first_by_digests {
        if !verify_chal_batch_path_digests(
            rows.as_slice(),
            dims.as_slice(),
            query_index / 2,
            &view.first_layer_commitment[0],
            &p.first_layer,
        ) {
            return Err(ChalMmcsError::FirstLayerDigests(q));
        }
    } else if !verify_chal_batch_path_replay(
        rows.as_slice(),
        dims.as_slice(),
        query_index / 2,
        &view.first_layer_commitment[0],
        &p.first_layer,
    ) {
        return Err(ChalMmcsError::FirstLayerCheck(q));
    }
    if p.commit_paths.len() != qp.commit_phase_openings.len() {
        return Err(ChalMmcsError::PathCount(q));
    }
    let start = ChainCursor::start(
        query_index,
        chal.extra_query_index_bits,
        qp.commit_phase_openings.len(),
        chal.log_blowup,
    );
    match check_rounds(
        &qp.commit_phase_openings,
        &view.fri_proof.commit_phase_commits,
        &chal.betas,
        start,
        &reduced,
        p,
        rounds_by_digests,
        Ghost(c),
    ) {
        Ok(()) => Ok(()),
        Err(e) => Err(ChalMmcsError::Round(q, e)),
    }
}

/// No round is checked by its digests alone.
pub open spec fn in_full(p: FriChalMmcsQueryProof) -> Seq<bool> {
    Seq::new(p.commit_paths@.len(), |r: int| false)
}

/// Where a list of records differs from a proof, given the challenges, if it does.
pub open spec fn chal_bundle_report(
    proof: StarkProofView,
    chal: AggFriChallenges,
    width: usize,
    bundle: Seq<FriChalMmcsQueryProof>,
) -> Option<ChalMmcsError> {
    if proof.opening_proof.first_layer_commitment@.len() == 0 {
        Some(ChalMmcsError::FirstLayerRoot)
    } else {
        first_some(
            bundle.len(),
            |q: int|
                chal_bind_report(
                    query_of(proof, chal, q),
                    width,
                    bundle[q],
                    false,
                    in_full(bundle[q]),
                ),
        )
    }
}

/// Checks that records belong to the queries of a proof, given the challenges.
pub fn bind_fri_chal_mmcs_with_challenges(
    proof: &StarkProofView,
    chal: &AggFriChallenges,
    bundle: &[FriChalMmcsQueryProof],
    trace_width: usize,
) -> (r: Result<(), ChalMmcsError>)
    requires
        rounds_fit(proof.opening_proof, chal.log_blowup),
        bundle@.len() == proof.opening_proof.fri_proof.query_proofs@.len(),
    ensures
        checked(r, chal_bundle_report(*proof, *chal, trace_width, bundle@)),
{
    if proof.opening_proof.first_layer_commitment.len() == 0 {
        return Err(ChalMmcsError::FirstLayerRoot);
    }
    let ghost f = |q: int|
        chal_bind_report(
            query_of(*proof, *chal, q),
            trace_width,
            bundle@[q],
            false,
            in_full(bundle@[q]),
        );
    let mut q: usize = 0;
    while q < bundle.len()
        invariant
            q <= bundle.len(),
            bundle@.len() == proof.opening_proof.fri_proof.query_proofs@.len(),
            rounds_fit(proof.opening_proof, chal.log_blowup),
            proof.opening_proof.first_layer_commitment@.len() > 0,
            f == (|q: int|
                chal_bind_report(
                    query_of(*proof, *chal, q),
                    trace_width,
                    bundle@[q],
                    false,
                    in_full(bundle@[q]),
                )),
            first_some(q as nat, f) is None,
        decreases bundle.len() - q,
    {
        proof {
            assert(first_some((q + 1) as nat, f) == f(q as int));
            if f(q as int) is Some {
                lemma_first_some_stops((q + 1) as nat, bundle@.len(), f);
            }
        }
        let full: Vec<bool> = all_false(bundle[q].commit_paths.len());
        proof {
            assert(full@ =~= in_full(bundle@[q as int]));
        }
        if let Err(e) = check_chal_query(proof, chal, q, trace_width, &bundle[q], false, &full) {
            return Err(e);
        }
        q += 1;
    }
    Ok(())
}

/// A list of `n` times false.
fn all_false(n: usize) -> (r: Vec<bool>)
    ensures
        r@ == Seq::new(n as nat, |i: int| false),
{
    let mut r: Vec<bool> = Vec::new();
    let mut i: usize = 0;
    while i < n
        invariant
            i <= n,
            r@ == Seq::new(i as nat, |i: int| false),
        decreases n - i,
    {
        r.push(false);
        i += 1;
        proof {
            assert(r@ =~= Seq::new(i as nat, |i: int| false));
        }
    }
    r
}

/// What checking that records belong to a proof returns.
pub open spec fn chal_bind_outcome(
    proof: StarkProofView,
    width: usize,
    params: FriParamsView,
    bundle: Seq<FriChalMmcsQueryProof>,
    r: Result<(), ChalMmcsError>,
) -> bool {
    let n = proof.opening_proof.fri_proof.query_proofs@.len();
    if !query_count_ok(proof) {
        r == Err::<(), ChalMmcsError>(ChalMmcsError::Replay(ReplayError::QueryCount(n as usize)))
    } else if bundle.len() != n {
        r == Err::<(), ChalMmcsError>(ChalMmcsError::Length(bundle.len() as usize))
    } else {
        match replay_report(proof, width, params) {
            Some(e) => r == Err::<(), ChalMmcsError>(ChalMmcsError::Replay(e)),
            None => exists|chal: AggFriChallenges| #[trigger]
                is_replay(chal, proof, params) && checked(
                    r,
                    chal_bundle_report(proof, chal, width, bundle),
                ),
        }
    }
}

/// Checks that records belong to the queries of a proof.
pub fn bind_fri_chal_mmcs_bundle_width(
    proof: &StarkProofView,
    bundle: &[FriChalMmcsQueryProof],
    trace_width: usize,
    params: &FriParamsView,
) -> (r: Result<(), ChalMmcsError>)
    requires
        params_ok(*params),
        rounds_fit(proof.opening_proof, params.log_blowup),
    ensures
        chal_bind_outcome(*proof, trace_width, *params, bundle@, r),
{
    let n: usize = match fri_queries_from_proof(proof) {
        Ok(n) => n,
        Err(e) => {
            return Err(ChalMmcsError::Replay(e));
        },
    };
    if bundle.len() != n {
        return Err(ChalMmcsError::Length(bundle.len()));
    }
    let chal = match replay_fri_challenges(proof, trace_width, params) {
        Ok(c) => c,
        Err(e) => {
            return Err(ChalMmcsError::Replay(e));
        },
    };
    proof {
        assert(is_replay(chal, *proof, *params));
    }
    bind_fri_chal_mmcs_with_challenges(proof, &chal, bundle, trace_width)
}

/// Recorded paths belong to the proof they were recorded from, unless a position passes 32 bits.
pub proof fn lemma_chal_records_bind(
    proof: StarkProofView,
    chal: AggFriChallenges,
    width: usize,
    bundle: Vec<FriChalMmcsQueryProof>,
)
    requires
        chal_bundle_outcome(proof, chal, width, Ok(bundle)),
        forall|q: int|
            0 <= q < bundle@.len() ==> 0 <= #[trigger] query_of(proof, chal, q).query_index()
                <= u32::MAX,
    ensures
        chal_bundle_report(proof, chal, width, bundle@) is None,
{
    lemma_chal_records_bind_upto(proof, chal, width, bundle, bundle@.len());
}

proof fn lemma_chal_records_bind_upto(
    proof: StarkProofView,
    chal: AggFriChallenges,
    width: usize,
    bundle: Vec<FriChalMmcsQueryProof>,
    k: nat,
)
    requires
        chal_bundle_outcome(proof, chal, width, Ok(bundle)),
        forall|q: int|
            0 <= q < bundle@.len() ==> 0 <= #[trigger] query_of(proof, chal, q).query_index()
                <= u32::MAX,
        k <= bundle@.len(),
    ensures
        first_some(
            k,
            |q: int|
                chal_bind_report(
                    query_of(proof, chal, q),
                    width,
                    bundle@[q],
                    false,
                    in_full(bundle@[q]),
                ),
        ) is None,
    decreases k,
{
    if k > 0 {
        let q = k - 1;
        let ri = query_of(proof, chal, q);
        let p = bundle@[q];
        let c = ri_chain(ri);
        let made = |q: int| chal_query_report(query_of(proof, chal, q), width);
        lemma_chal_records_bind_upto(proof, chal, width, bundle, q as nat);
        lemma_first_some_none(bundle@.len(), made, q);
        assert(made(q) is None);
        assert(is_chal_record(ri, p));
        crate::batch_path::lemma_recorded_batch_valid(
            first_layer_batch(ri, ri.input().first_layer_proof@),
            ri.view.first_layer_commitment@[0]@,
            p.first_layer,
        );
        crate::bits::lemma_shr_bounds(c.query_index, c.extra_bits);
        lemma_rounds_bind(ri, p, c.rounds.len());
        assert(chal_bind_report(ri, width, p, false, in_full(p)) is None);
    }
}

/// The position of a chain never grows.
proof fn lemma_chain_index(c: ChainInput, r: nat)
    requires
        c.query_index >= 0,
    ensures
        0 <= c.state(r).index <= c.query_index,
    decreases r,
{
    crate::bits::lemma_shr_bounds(c.query_index, c.extra_bits);
    if r > 0 {
        lemma_chain_index(c, (r - 1) as nat);
    }
}

proof fn lemma_rounds_bind(ri: RoInput, p: FriChalMmcsQueryProof, k: nat)
    requires
        is_chal_record(ri, p),
        k <= ri_chain(ri).rounds.len(),
        0 <= ri.query_index() <= u32::MAX,
        first_some(
            ri_chain(ri).rounds.len(),
            |r: int|
                round_record_report(ri_chain(ri), ri.view.fri_proof.commit_phase_commits@, r),
        ) is None,
    ensures
        first_some(
            k,
            |r: int|
                round_bind_report(
                    ri_chain(ri),
                    ri.view.fri_proof.commit_phase_commits@,
                    p,
                    in_full(p)[r],
                    r,
                ),
        ) is None,
    decreases k,
{
    if k > 0 {
        let r = k - 1;
        let c = ri_chain(ri);
        let commits = ri.view.fri_proof.commit_phase_commits@;
        lemma_rounds_bind(ri, p, r as nat);
        lemma_first_some_none(
            c.rounds.len(),
            |r: int| round_record_report(c, commits, r),
            r,
        );
        lemma_chain_index(c, r as nat);
        assert(p.commit_indices@[r] == round_position(c, r) as u32);
        assert(p.commit_siblings@[r]@ == c.rounds[r].opening_proof@);
        assert(is_path_record(
            p.commit_paths@[r],
            round_row(c, r),
            c.rounds[r].opening_proof@,
            round_position(c, r),
        ));
        assert(round_record_report(c, commits, r) is None);
        assert(round_bind_report(c, commits, p, in_full(p)[r], r) is None);
    }
}

} // verus!
