//! Dropped siblings, filled in again from the openings of a proof.
use vstd::prelude::*;

use crate::bits::shift_right;
use crate::chal_mmcs::{ChalMmcsError, FriChalMmcsQueryProof, RoundError};
use crate::checks::{checked, first_some, lemma_first_some_stops};
use crate::fri_fs_replay::{
    fri_queries_from_proof, is_replay, params_ok, query_count_ok, replay_fri_challenges,
    replay_report, AggFriChallenges, ReplayError,
};
use crate::fri_ro::RoInput;
use crate::merkle::{copy_digests, same_digests};
use crate::mmcs_strip::{chal_siblings_dropped, val_siblings_dropped, ChalCover};
use crate::pcs_view::{CommitPhaseStepView, FriParamsView, QueryProofView, StarkProofView};
use crate::val_mmcs::{
    query_of, quotient_siblings, trace_position, trace_siblings, FriValMmcsQueryProof,
    ValMmcsError,
};

verus! {

/// Siblings after filling in: the opening's where none were left.
pub open spec fn filled(have: Seq<[u8; 32]>, opening: Seq<[u8; 32]>) -> Seq<[u8; 32]> {
    if have.len() == 0 {
        opening
    } else {
        have
    }
}

/// `b` is the record `a` with its siblings filled in from a query.
pub open spec fn val_filled(ri: RoInput, a: FriValMmcsQueryProof, b: FriValMmcsQueryProof) -> bool {
    &&& b.trace_index == a.trace_index
    &&& b.quot_index == a.quot_index
    &&& b.trace_path == a.trace_path
    &&& b.quot_path == a.quot_path
    &&& b.quot_batch == a.quot_batch
    &&& b.trace_siblings@ == filled(a.trace_siblings@, trace_siblings(ri))
    &&& b.quot_siblings@ == filled(a.quot_siblings@, quotient_siblings(ri))
}

/// Why a record cannot be filled in from a query, if so.
pub open spec fn val_fill_report(ri: RoInput, a: FriValMmcsQueryProof) -> Option<ValMmcsError> {
    let q = ri.query as usize;
    if ri.query >= ri.chal.query_indices@.len() {
        Some(ValMmcsError::MissingIndex(q))
    } else if ri.input().input_openings@.len() < 2 {
        Some(ValMmcsError::InputBatches(q))
    } else if a.trace_index != trace_position(ri) {
        Some(ValMmcsError::TraceIndex(q))
    } else if filled(a.trace_siblings@, trace_siblings(ri)) != trace_siblings(ri) || filled(
        a.quot_siblings@,
        quotient_siblings(ri),
    ) != quotient_siblings(ri) {
        Some(ValMmcsError::Siblings(q))
    } else {
        None
    }
}

/// Why a list of records cannot be filled in, if so.
pub open spec fn val_hydrate_report(
    proof: StarkProofView,
    chal: AggFriChallenges,
    bundle: Seq<FriValMmcsQueryProof>,
) -> Option<ValMmcsError> {
    let ri = query_of(proof, chal, 0);
    if ri.trace_height() > ri.log_max_height() {
        Some(ValMmcsError::Height)
    } else {
        first_some(bundle.len(), |q: int| val_fill_report(query_of(proof, chal, q), bundle[q]))
    }
}

/// Query `q` has an index and openings of both kinds.
pub open spec fn val_readable(ri: RoInput) -> bool {
    ri.query < ri.chal.query_indices@.len() && ri.input().input_openings@.len() >= 2
}

/// Record `q` is the first that cannot be filled in.
pub open spec fn val_stops_at(
    proof: StarkProofView,
    chal: AggFriChallenges,
    before: Seq<FriValMmcsQueryProof>,
    q: int,
) -> bool {
    &&& 0 <= q < before.len()
    &&& val_fill_report(query_of(proof, chal, q), before[q]) is Some
    &&& first_some(
        q as nat,
        |j: int| val_fill_report(query_of(proof, chal, j), before[j]),
    ) is None
}

/// The records before and after filling in: all filled in on success. Otherwise those before the
/// failing one are, the failing one is where its query can be read, and the rest are as they
/// were.
pub open spec fn val_hydrated(
    proof: StarkProofView,
    chal: AggFriChallenges,
    before: Seq<FriValMmcsQueryProof>,
    after: Seq<FriValMmcsQueryProof>,
    r: Result<(), ValMmcsError>,
) -> bool {
    let ri = query_of(proof, chal, 0);
    &&& after.len() == before.len()
    &&& if r is Ok {
        val_filled_upto(proof, chal, before, after, before.len() as int)
    } else if ri.trace_height() > ri.log_max_height() {
        after == before
    } else {
        exists|q: int| #[trigger]
            val_stops_at(proof, chal, before, q) && val_filled_upto(
                proof,
                chal,
                before,
                after,
                if val_readable(query_of(proof, chal, q)) {
                    q + 1
                } else {
                    q
                },
            )
    }
}

/// The first `k` records are filled in and the rest are as they were.
pub open spec fn val_filled_upto(
    proof: StarkProofView,
    chal: AggFriChallenges,
    before: Seq<FriValMmcsQueryProof>,
    after: Seq<FriValMmcsQueryProof>,
    k: int,
) -> bool {
    &&& 0 <= k <= before.len()
    &&& forall|q: int|
        0 <= q < k ==> val_filled(query_of(proof, chal, q), before[q], #[trigger] after[q])
    &&& forall|q: int| k <= q < before.len() ==> #[trigger] after[q] == before[q]
}

/// Fills in trace and quotient siblings, given the challenges.
pub fn hydrate_val_with_challenges(
    proof: &StarkProofView,
    chal: &AggFriChallenges,
    bundle: &mut Vec<FriValMmcsQueryProof>,
) -> (r: Result<(), ValMmcsError>)
    requires
        proof.opening_proof.fri_proof.commit_phase_commits@.len() + chal.log_blowup + 1
            <= usize::MAX,
        old(bundle)@.len() == proof.opening_proof.fri_proof.query_proofs@.len(),
    ensures
        checked(r, val_hydrate_report(*proof, *chal, old(bundle)@)),
        val_hydrated(*proof, *chal, old(bundle)@, final(bundle)@, r),
{
    let ghost b0 = bundle@;
    let above: usize = proof.opening_proof.fri_proof.commit_phase_commits.len() + 1;
    proof {
        assert(val_filled_upto(*proof, *chal, b0, bundle@, 0));
    }
    if proof.degree_bits > above {
        return Err(ValMmcsError::Height);
    }
    let shift: usize = above - proof.degree_bits;
    let ghost f = |q: int| val_fill_report(query_of(*proof, *chal, q), b0[q]);
    let n: usize = bundle.len();
    let mut q: usize = 0;
    while q < n
        invariant
            q <= n,
            b0 == old(bundle)@,
            n == b0.len(),
            b0.len() == proof.opening_proof.fri_proof.query_proofs@.len(),
            bundle@.len() == n,
            above == proof.opening_proof.fri_proof.commit_phase_commits@.len() + 1,
            above + chal.log_blowup <= usize::MAX,
            proof.degree_bits <= above,
            shift == above - proof.degree_bits,
            f == (|q: int| val_fill_report(query_of(*proof, *chal, q), b0[q])),
            first_some(q as nat, f) is None,
            val_filled_upto(*proof, *chal, b0, bundle@, q as int),
        decreases n - q,
    {
        let ghost ri = query_of(*proof, *chal, q as int);
        let ghost before = bundle@;
        proof {
            assert(bundle@[q as int] == b0[q as int]);
            assert(first_some((q + 1) as nat, f) == f(q as int));
            if f(q as int) is Some {
                lemma_first_some_stops((q + 1) as nat, n as nat, f);
                assert(val_stops_at(*proof, *chal, b0, q as int));
            }
        }
        if q >= chal.query_indices.len() {
            return Err(ValMmcsError::MissingIndex(q));
        }
        let input = &proof.opening_proof.fri_proof.query_proofs[q].input_proof;
        if input.input_openings.len() < 2 {
            return Err(ValMmcsError::InputBatches(q));
        }
        if bundle[q].trace_siblings.len() == 0 {
            bundle[q].trace_siblings = copy_digests(input.input_openings[0].opening_proof.as_slice());
        }
        if bundle[q].quot_siblings.len() == 0 {
            bundle[q].quot_siblings = copy_digests(input.input_openings[1].opening_proof.as_slice());
        }
        proof {
            assert(val_filled(ri, b0[q as int], bundle@[q as int]));
            assert forall|j: int| 0 <= j < n && j != q implies bundle@[j] == before[j] by {}
            assert(val_filled_upto(*proof, *chal, b0, bundle@, q + 1));
        }
        if bundle[q].trace_index as usize != shift_right(chal.query_indices[q], shift) {
            return Err(ValMmcsError::TraceIndex(q));
        }
        if !same_digests(&bundle[q].trace_siblings, &input.input_openings[0].opening_proof)
            || !same_digests(&bundle[q].quot_siblings, &input.input_openings[1].opening_proof) {
            return Err(ValMmcsError::Siblings(q));
        }
        q += 1;
    }
    Ok(())
}

/// What filling in trace and quotient siblings returns and does.
pub open spec fn val_hydrate_outcome(
    proof: StarkProofView,
    width: usize,
    params: FriParamsView,
    before: Seq<FriValMmcsQueryProof>,
    after: Seq<FriValMmcsQueryProof>,
    r: Result<(), ValMmcsError>,
) -> bool {
    let n = proof.opening_proof.fri_proof.query_proofs@.len();
    if !query_count_ok(proof) {
        r == Err::<(), ValMmcsError>(ValMmcsError::Replay(ReplayError::QueryCount(n as usize)))
            && after == before
    } else if before.len() != n {
        r == Err::<(), ValMmcsError>(ValMmcsError::Length(before.len() as usize)) && after
            == before
    } else {
        match replay_report(proof, width, params) {
            Some(e) => r == Err::<(), ValMmcsError>(ValMmcsError::Replay(e)) && after == before,
            None => exists|chal: AggFriChallenges| #[trigger]
                is_replay(chal, proof, params) && checked(
                    r,
                    val_hydrate_report(proof, chal, before),
                ) && val_hydrated(proof, chal, before, after, r),
        }
    }
}

/// Fills in trace and quotient siblings from the openings of a proof.
pub fn hydrate_val_mmcs_siblings_from_proof(
    proof: &StarkProofView,
    bundle: &mut Vec<FriValMmcsQueryProof>,
    trace_width: usize,
    params: &FriParamsView,
) -> (r: Result<(), ValMmcsError>)
    requires
        params_ok(*params),
        proof.opening_proof.fri_proof.commit_phase_commits@.len() + params.log_blowup + 1
            <= usize::MAX,
    ensures
        val_hydrate_outcome(*proof, trace_width, *params, old(bundle)@, final(bundle)@, r),
{
    let n: usize = match fri_queries_from_proof(proof) {
        Ok(n) => n,
        Err(e) => {
            return Err(ValMmcsError::Replay(e));
        },
    };
    if bundle.len() != n {
        return Err(ValMmcsError::Length(bundle.len()));
    }
    let chal = match replay_fri_challenges(proof, trace_width, params) {
        Ok(c) => c,
        Err(e) => {
            return Err(ValMmcsError::Replay(e));
        },
    };
    proof {
        assert(is_replay(chal, *proof, *params));
    }
    hydrate_val_with_challenges(proof, &chal, bundle)
}

/// Filling in undoes dropping, for records whose siblings are those of the proof.
pub proof fn lemma_val_hydrate_undoes_drop(
    ri: RoInput,
    full: FriValMmcsQueryProof,
    dropped: FriValMmcsQueryProof,
    trace: bool,
    quot: bool,
    hydrated: FriValMmcsQueryProof,
)
    requires
        full.trace_siblings@ == trace_siblings(ri),
        full.quot_siblings@ == quotient_siblings(ri),
        val_siblings_dropped(full, dropped, trace, quot),
        val_filled(ri, dropped, hydrated),
    ensures
        hydrated.trace_siblings@ == full.trace_siblings@,
        hydrated.quot_siblings@ == full.quot_siblings@,
        hydrated.trace_index == full.trace_index,
        hydrated.quot_index == full.quot_index,
        hydrated.trace_path == full.trace_path,
        hydrated.quot_path == full.quot_path,
        hydrated.quot_batch == full.quot_batch,
{
}

/// `b` is the record `a` with the first `k` rounds' siblings filled in.
pub open spec fn rounds_filled(
    rounds: Seq<CommitPhaseStepView>,
    a: FriChalMmcsQueryProof,
    b: FriChalMmcsQueryProof,
    k: int,
) -> bool {
    &&& b.commit_siblings@.len() == a.commit_siblings@.len()
    &&& 0 <= k <= b.commit_siblings@.len()
    &&& forall|i: int|
        0 <= i < k ==> (#[trigger] b.commit_siblings@[i])@ == filled(
            a.commit_siblings@[i]@,
            rounds[i].opening_proof@,
        )
    &&& forall|i: int|
        k <= i < a.commit_siblings@.len() ==> #[trigger] b.commit_siblings@[i]
            == a.commit_siblings@[i]
}

/// All fields but the siblings are the same.
pub open spec fn same_but_siblings(a: FriChalMmcsQueryProof, b: FriChalMmcsQueryProof) -> bool {
    &&& b.first_layer.index == a.first_layer.index
    &&& b.first_layer.leaf_rows == a.first_layer.leaf_rows
    &&& b.first_layer.leaf_keccs == a.first_layer.leaf_keccs
    &&& b.first_layer.leaf_digests == a.first_layer.leaf_digests
    &&& b.first_layer.sib_compresses == a.first_layer.sib_compresses
    &&& b.first_layer.sib_layer_digests == a.first_layer.sib_layer_digests
    &&& b.first_layer.inject_compresses == a.first_layer.inject_compresses
    &&& b.first_layer.inject_digests == a.first_layer.inject_digests
    &&& b.first_layer.inject_leaf_indices == a.first_layer.inject_leaf_indices
    &&& b.commit_indices == a.commit_indices
    &&& b.commit_paths == a.commit_paths
}

/// `b` is the record `a` with its siblings filled in from a query.
pub open spec fn chal_filled(
    qp: QueryProofView,
    a: FriChalMmcsQueryProof,
    b: FriChalMmcsQueryProof,
) -> bool {
    &&& same_but_siblings(a, b)
    &&& b.first_layer.siblings@ == filled(
        a.first_layer.siblings@,
        qp.input_proof.first_layer_proof@,
    )
    &&& rounds_filled(qp.commit_phase_openings@, a, b, a.commit_siblings@.len() as int)
}

/// Why a record cannot be filled in from query `q`, if so.
pub open spec fn chal_fill_report(q: int, qp: QueryProofView, a: FriChalMmcsQueryProof) -> Option<
    ChalMmcsError,
> {
    let rounds = qp.commit_phase_openings@;
    let round = first_some(
        rounds.len(),
        |i: int|
            if filled(a.commit_siblings@[i]@, rounds[i].opening_proof@) != rounds[i].opening_proof@ {
                Some(i as usize)
            } else {
                None
            },
    );
    if filled(a.first_layer.siblings@, qp.input_proof.first_layer_proof@)
        != qp.input_proof.first_layer_proof@ {
        Some(ChalMmcsError::FirstLayerSiblings(q as usize))
    } else if a.commit_siblings@.len() != rounds.len() {
        Some(ChalMmcsError::PathCount(q as usize))
    } else if round is Some {
        Some(ChalMmcsError::Round(q as usize, RoundError::Meta(round->0)))
    } else {
        None
    }
}

/// Round `i` is the first whose siblings are there and differ from the opening's.
pub open spec fn round_stops_at(
    rounds: Seq<CommitPhaseStepView>,
    a: FriChalMmcsQueryProof,
    i: int,
) -> bool {
    &&& 0 <= i < rounds.len()
    &&& filled(a.commit_siblings@[i]@, rounds[i].opening_proof@) != rounds[i].opening_proof@
    &&& forall|j: int|
        0 <= j < i ==> filled(
            (#[trigger] a.commit_siblings@[j])@,
            rounds[j].opening_proof@,
        ) == rounds[j].opening_proof@
}

/// `b` is what is left of the record `a` where it could not be filled in: the first layer's
/// siblings are filled in, and the rounds' up to the one that differs, if they were reached.
pub open spec fn chal_partly_filled(
    qp: QueryProofView,
    a: FriChalMmcsQueryProof,
    b: FriChalMmcsQueryProof,
) -> bool {
    let rounds = qp.commit_phase_openings@;
    let first = filled(a.first_layer.siblings@, qp.input_proof.first_layer_proof@);
    &&& same_but_siblings(a, b)
    &&& b.first_layer.siblings@ == first
    &&& if first != qp.input_proof.first_layer_proof@ || a.commit_siblings@.len()
        != rounds.len() {
        b.commit_siblings == a.commit_siblings
    } else {
        exists|i: int| #[trigger]
            round_stops_at(rounds, a, i) && rounds_filled(rounds, a, b, i + 1)
    }
}

/// Fills in the siblings of one record.
fn hydrate_chal_query(q: usize, qp: &QueryProofView, a: &mut FriChalMmcsQueryProof) -> (r: Result<
    (),
    ChalMmcsError,
>)
    ensures
        checked(r, chal_fill_report(q as int, *qp, *old(a))),
        r is Ok ==> chal_filled(*qp, *old(a), *final(a)),
        r is Err ==> chal_partly_filled(*qp, *old(a), *final(a)),
{
    let ghost a0 = *a;
    let rounds = &qp.commit_phase_openings;
    if a.first_layer.siblings.len() == 0 {
        a.first_layer.siblings = copy_digests(qp.input_proof.first_layer_proof.as_slice());
    }
    if !same_digests(&a.first_layer.siblings, &qp.input_proof.first_layer_proof) {
        return Err(ChalMmcsError::FirstLayerSiblings(q));
    }
    if a.commit_siblings.len() != rounds.len() {
        return Err(ChalMmcsError::PathCount(q));
    }
    let ghost a1 = *a;
    let ghost f = |i: int|
        if filled(a0.commit_siblings@[i]@, rounds@[i].opening_proof@) != rounds@[i].opening_proof@ {
            Some(i as usize)
        } else {
            None
        };
    let mut i: usize = 0;
    while i < rounds.len()
        invariant
            i <= rounds.len(),
            a0 == *old(a),
            *rounds == qp.commit_phase_openings,
            a0.commit_siblings@.len() == rounds@.len(),
            a.first_layer == a1.first_layer,
            same_but_siblings(a0, a1),
            a.commit_indices == a0.commit_indices,
            a.commit_paths == a0.commit_paths,
            rounds_filled(rounds@, a0, *a, i as int),
            f == (|i: int|
                if filled(a0.commit_siblings@[i]@, rounds@[i].opening_proof@)
                    != rounds@[i].opening_proof@ {
                    Some(i as usize)
                } else {
                    None
                }),
            first_some(i as nat, f) is None,
            forall|j: int|
                0 <= j < i ==> filled(
                    (#[trigger] a0.commit_siblings@[j])@,
                    rounds@[j].opening_proof@,
                ) == rounds@[j].opening_proof@,
            a1.first_layer.siblings@ == filled(
                a0.first_layer.siblings@,
                qp.input_proof.first_layer_proof@,
            ),
            filled(a0.first_layer.siblings@, qp.input_proof.first_layer_proof@)
                == qp.input_proof.first_layer_proof@,
        decreases rounds.len() - i,
    {
        let ghost before = a.commit_siblings@;
        proof {
            assert(a.commit_siblings@[i as int] == a0.commit_siblings@[i as int]);
            assert(first_some((i + 1) as nat, f) == f(i as int));
            if f(i as int) is Some {
                lemma_first_some_stops((i + 1) as nat, rounds@.len(), f);
            }
        }
        if a.commit_siblings[i].len() == 0 {
            a.commit_siblings.set(i, copy_digests(rounds[i].opening_proof.as_slice()));
        }
        proof {
            assert forall|j: int| 0 <= j < rounds@.len() && j != i implies a.commit_siblings@[j]
                == before[j] by {}
            assert(rounds_filled(rounds@, a0, *a, i + 1));
        }
        if !same_digests(&a.commit_siblings[i], &rounds[i].opening_proof) {
            proof {
                assert(round_stops_at(rounds@, a0, i as int));
            }
            return Err(ChalMmcsError::Round(q, RoundError::Meta(i)));
        }
        i += 1;
    }
    Ok(())
}

/// What filling in first-layer and commit-phase siblings returns and does.
pub open spec fn chal_hydrate_outcome(
    proof: StarkProofView,
    before: Seq<FriChalMmcsQueryProof>,
    after: Seq<FriChalMmcsQueryProof>,
    r: Result<(), ChalMmcsError>,
) -> bool {
    let queries = proof.opening_proof.fri_proof.query_proofs@;
    let n = queries.len();
    if !query_count_ok(proof) {
        r == Err::<(), ChalMmcsError>(ChalMmcsError::Replay(ReplayError::QueryCount(n as usize)))
            && after == before
    } else if before.len() != n {
        r == Err::<(), ChalMmcsError>(ChalMmcsError::Length(before.len() as usize)) && after
            == before
    } else {
        &&& checked(r, first_some(n, |q: int| chal_fill_report(q, queries[q], before[q])))
        &&& after.len() == n
        &&& if r is Ok {
            chal_filled_upto(queries, before, after, n as int)
        } else {
            exists|q: int| #[trigger]
                chal_stops_at(queries, before, q) && chal_partly_filled(
                    queries[q],
                    before[q],
                    after[q],
                ) && chal_filled_upto(queries, before, after.update(q, before[q]), q)
        }
    }
}

/// Record `q` is the first that cannot be filled in.
pub open spec fn chal_stops_at(
    queries: Seq<QueryProofView>,
    before: Seq<FriChalMmcsQueryProof>,
    q: int,
) -> bool {
    &&& 0 <= q < before.len()
    &&& chal_fill_report(q, queries[q], before[q]) is Some
    &&& first_some(q as nat, |j: int| chal_fill_report(j, queries[j], before[j])) is None
}

/// The first `k` records are filled in and the rest are as they were.
pub open spec fn chal_filled_upto(
    queries: Seq<QueryProofView>,
    before: Seq<FriChalMmcsQueryProof>,
    after: Seq<FriChalMmcsQueryProof>,
    k: int,
) -> bool {
    &&& 0 <= k <= before.len()
    &&& forall|q: int| 0 <= q < k ==> chal_filled(queries[q], before[q], #[trigger] after[q])
    &&& forall|q: int| k <= q < before.len() ==> #[trigger] after[q] == before[q]
}

/// Fills in first-layer and commit-phase siblings from the openings of a proof.
pub fn hydrate_chal_mmcs_siblings_from_proof(
    proof: &StarkProofView,
    bundle: &mut Vec<FriChalMmcsQueryProof>,
) -> (r: Result<(), ChalMmcsError>)
    ensures
        chal_hydrate_outcome(*proof, old(bundle)@, final(bundle)@, r),
{
    let ghost b0 = bundle@;
    let n: usize = match fri_queries_from_proof(proof) {
        Ok(n) => n,
        Err(e) => {
            return Err(ChalMmcsError::Replay(e));
        },
    };
    if bundle.len() != n {
        return Err(ChalMmcsError::Length(bundle.len()));
    }
    let queries = &proof.opening_proof.fri_proof.query_proofs;
    let ghost f = |q: int| chal_fill_report(q, queries@[q], b0[q]);
    let mut q: usize = 0;
    while q < n
        invariant
            q <= n,
            b0 == old(bundle)@,
            n == b0.len(),
            *queries == proof.opening_proof.fri_proof.query_proofs,
            queries@.len() == n,
            query_count_ok(*proof),
            bundle@.len() == n,
            f == (|q: int| chal_fill_report(q, queries@[q], b0[q])),
            first_some(q as nat, f) is None,
            chal_filled_upto(queries@, b0, bundle@, q as int),
        decreases n - q,
    {
        let ghost before = bundle@;
        proof {
            assert(bundle@[q as int] == b0[q as int]);
            assert(first_some((q + 1) as nat, f) == f(q as int));
            if f(q as int) is Some {
                lemma_first_some_stops((q + 1) as nat, n as nat, f);
            }
        }
        let x = hydrate_chal_query(q, &queries[q], &mut bundle[q]);
        proof {
            assert forall|j: int| 0 <= j < n && j != q implies #[trigger] bundle@[j] == before[j] by {}
        }
        if let Err(e) = x {
            proof {
                assert(chal_stops_at(queries@, b0, q as int));
            }
            return Err(e);
        }
        q += 1;
    }
    Ok(())
}

/// Filling in undoes dropping, for records whose siblings are those of the proof.
pub proof fn lemma_chal_hydrate_undoes_drop(
    qp: QueryProofView,
    full: FriChalMmcsQueryProof,
    dropped: FriChalMmcsQueryProof,
    cover: ChalCover,
    hydrated: FriChalMmcsQueryProof,
)
    requires
        full.first_layer.siblings@ == qp.input_proof.first_layer_proof@,
        full.commit_siblings@.len() == qp.commit_phase_openings@.len(),
        forall|i: int|
            0 <= i < full.commit_siblings@.len() ==> (#[trigger] full.commit_siblings@[i])@
                == qp.commit_phase_openings@[i].opening_proof@,
        chal_siblings_dropped(full, dropped, cover),
        chal_filled(qp, dropped, hydrated),
    ensures
        same_but_siblings(full, hydrated),
        hydrated.first_layer.siblings@ == full.first_layer.siblings@,
        hydrated.commit_siblings@.len() == full.commit_siblings@.len(),
        forall|i: int|
            0 <= i < full.commit_siblings@.len() ==> (#[trigger] hydrated.commit_siblings@[i])@
                == full.commit_siblings@[i]@,
{
    assert forall|i: int| 0 <= i < full.commit_siblings@.len() implies (
    #[trigger] hydrated.commit_siblings@[i])@ == full.commit_siblings@[i]@ by {
        assert(hydrated.commit_siblings@[i]@ == filled(
            dropped.commit_siblings@[i]@,
            qp.commit_phase_openings@[i].opening_proof@,
        ));
        assert(full.commit_siblings@[i]@ == qp.commit_phase_openings@[i].opening_proof@);
    }
}

} // verus!
