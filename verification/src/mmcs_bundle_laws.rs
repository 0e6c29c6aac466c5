//! A bundle of paths as recorded, without the siblings that groups cover, is filled in again;
//! siblings that are there are compared and kept.
use vstd::prelude::*;

use crate::bits::{exp2, lemma_exp2_monotone, lemma_shr_bounds};
use crate::chal_mmcs::{
    chal_bundle_outcome, chal_proof_outcome, is_chal_record, ChalMmcsError, FriChalMmcsQueryProof,
};
use crate::checks::{checked, first_some, lemma_first_some_none};
use crate::fri_fs_replay::{
    drawn_index, drawn_index_leads, index_bits, is_replay, leads_to, query_count_ok, query_index,
    query_report, query_trace_path, query_trace_row, recover_report, recovered_index, replay_report,
    same_height_queries, AggFriChallenges,
};
use crate::mmcs_hydrate::{
    chal_fill_report, chal_filled, chal_filled_upto, chal_hydrate_outcome, chal_partly_filled,
    chal_stops_at, filled, lemma_chal_hydrate_undoes_drop, lemma_val_hydrate_undoes_drop,
    same_but_siblings, val_fill_report, val_filled, val_hydrate_outcome, val_hydrate_report,
    val_hydrated,
};
use crate::mmcs_strip::{
    chal_cover, chal_dropped, chal_siblings_dropped, val_dropped, val_siblings_dropped,
    LeafMmcsFoldGroups,
};
use crate::pcs_view::{FriParamsView, StarkProofView};
use crate::val_mmcs::{
    is_val_record, query_of, trace_position, val_bundle_outcome, val_proof_outcome,
    val_query_report, val_shape_report, FriValMmcsQueryProof, ValMmcsError,
};

verus! {

/// Two trace and quotient records hold the same.
pub open spec fn same_val_record(a: FriValMmcsQueryProof, b: FriValMmcsQueryProof) -> bool {
    &&& b.trace_index == a.trace_index
    &&& b.quot_index == a.quot_index
    &&& b.trace_siblings@ == a.trace_siblings@
    &&& b.quot_siblings@ == a.quot_siblings@
    &&& b.trace_path == a.trace_path
    &&& b.quot_path == a.quot_path
    &&& b.quot_batch == a.quot_batch
}

/// Two first-layer and commit-phase records hold the same.
pub open spec fn same_chal_record(a: FriChalMmcsQueryProof, b: FriChalMmcsQueryProof) -> bool {
    &&& same_but_siblings(a, b)
    &&& b.first_layer.siblings@ == a.first_layer.siblings@
    &&& b.commit_siblings@.len() == a.commit_siblings@.len()
    &&& forall|i: int|
        0 <= i < a.commit_siblings@.len() ==> (#[trigger] b.commit_siblings@[i])@
            == a.commit_siblings@[i]@
}

/// The index of a query whose trace path was recorded is a 32-bit number.
proof fn lemma_index_small(
    proof: StarkProofView,
    chal: AggFriChallenges,
    width: usize,
    params: FriParamsView,
    q: int,
)
    requires
        replay_report(proof, width, params) is None,
        is_replay(chal, proof, params),
        0 <= q < chal.query_indices@.len(),
        val_query_report(query_of(proof, chal, q), width) is None,
    ensures
        0 <= query_of(proof, chal, q).query_index() <= u32::MAX,
{
    let ri = query_of(proof, chal, q);
    assert(chal.query_indices@[q] == query_index(proof, params, q));
    let n = proof.opening_proof.fri_proof.query_proofs@.len();
    assert(exp2(30) == 1073741824) by {
        reveal_with_fuel(exp2, 31);
    }
    if same_height_queries(proof, params) && !drawn_index_leads(proof, params, q) {
        let f = |q: int| query_report(proof, width, params, q);
        lemma_first_some_none(n, f, q);
        assert(f(q) is None);
        let row = query_trace_row(proof, q);
        let path = query_trace_path(proof, q);
        let root = proof.trace_commitment@[0]@;
        assert(recover_report(row, path, root) is None);
        assert(path.len() <= 20);
        let depth = (path.len() as u32) as nat;
        assert(exists|i: int| 0 <= i < exp2(depth) && leads_to(row, path, root, i));
        assert(0 <= recovered_index(row, path, root) < exp2(depth));
        lemma_exp2_monotone(depth, 30);
    } else {
        assert(0 <= drawn_index(proof, params, q as nat) < exp2(index_bits(proof, params) as nat));
        lemma_exp2_monotone(index_bits(proof, params) as nat, 30);
    }
}

/// A recorded trace and quotient record without covered siblings can be filled in.
proof fn lemma_val_record_fills(
    proof: StarkProofView,
    made_with: AggFriChallenges,
    chal: AggFriChallenges,
    width: usize,
    params: FriParamsView,
    full: FriValMmcsQueryProof,
    dropped: FriValMmcsQueryProof,
    trace: bool,
    quot: bool,
    q: int,
)
    requires
        replay_report(proof, width, params) is None,
        is_replay(made_with, proof, params),
        is_replay(chal, proof, params),
        0 <= q < chal.query_indices@.len(),
        val_shape_report(proof, made_with) is None,
        val_query_report(query_of(proof, made_with, q), width) is None,
        is_val_record(query_of(proof, made_with, q), full),
        val_siblings_dropped(full, dropped, trace, quot),
    ensures
        val_fill_report(query_of(proof, chal, q), dropped) is None,
{
    let a = query_of(proof, made_with, q);
    let b = query_of(proof, chal, q);
    lemma_index_small(proof, made_with, width, params, q);
    assert(made_with.query_indices@[q] == query_index(proof, params, q));
    assert(chal.query_indices@[q] == query_index(proof, params, q));
    assert(a.query_index() == b.query_index());
    assert(trace_position(a) == trace_position(b));
    lemma_shr_bounds(a.query_index(), (a.log_max_height() - a.trace_height()) as nat);
}

/// A bundle of trace and quotient paths as recorded, without the siblings that any groups cover,
/// is filled in with success, and is then the bundle that was recorded.
pub proof fn lemma_val_bundle_restored(
    proof: StarkProofView,
    width: usize,
    params: FriParamsView,
    made: Vec<FriValMmcsQueryProof>,
    groups: LeafMmcsFoldGroups,
    on: bool,
    dropped: Seq<FriValMmcsQueryProof>,
    after: Seq<FriValMmcsQueryProof>,
    r: Result<(), ValMmcsError>,
)
    requires
        val_proof_outcome(proof, width, params, Ok(made)),
        val_dropped(made@, dropped, groups, on),
        val_hydrate_outcome(proof, width, params, dropped, after, r),
    ensures
        r is Ok,
        after.len() == made@.len(),
        forall|q: int| 0 <= q < made@.len() ==> same_val_record(made@[q], #[trigger] after[q]),
{
    let made_with = choose|chal: AggFriChallenges| #[trigger]
        is_replay(chal, proof, params) && val_bundle_outcome(proof, chal, width, Ok(made));
    let chal = choose|chal: AggFriChallenges| #[trigger]
        is_replay(chal, proof, params) && checked(
            r,
            val_hydrate_report(proof, chal, dropped),
        ) && val_hydrated(proof, chal, dropped, after, r);
    let n = made@.len();
    let trace = on && groups.val_trace@.len() > 0;
    let quot = on && groups.val_quot@.len() > 0;
    let recorded = |q: int| val_query_report(query_of(proof, made_with, q), width);
    let f = |q: int| val_fill_report(query_of(proof, chal, q), dropped[q]);
    assert forall|q: int| 0 <= q < n implies #[trigger] f(q) is None by {
        lemma_first_some_none(n, recorded, q);
        assert(recorded(q) is None);
        assert(is_val_record(query_of(proof, made_with, q), made@[q]));
        assert(val_siblings_dropped(made@[q], dropped[q], trace, quot));
        lemma_val_record_fills(
            proof,
            made_with,
            chal,
            width,
            params,
            made@[q],
            dropped[q],
            trace,
            quot,
            q,
        );
    }
    lemma_none_reported(n, f);
    assert(val_hydrate_report(proof, chal, dropped) is None);
    assert forall|q: int| 0 <= q < n implies same_val_record(made@[q], #[trigger] after[q]) by {
        assert(is_val_record(query_of(proof, made_with, q), made@[q]));
        assert(val_siblings_dropped(made@[q], dropped[q], trace, quot));
        assert(val_filled(query_of(proof, chal, q), dropped[q], after[q]));
        lemma_val_hydrate_undoes_drop(
            query_of(proof, chal, q),
            made@[q],
            dropped[q],
            trace,
            quot,
            after[q],
        );
    }
}

/// Without a report at any position there is none.
proof fn lemma_none_reported<E>(n: nat, f: spec_fn(int) -> Option<E>)
    requires
        forall|i: int| 0 <= i < n ==> #[trigger] f(i) is None,
    ensures
        first_some(n, f) is None,
    decreases n,
{
    if n > 0 {
        lemma_none_reported((n - 1) as nat, f);
    }
}

/// A bundle of first-layer and commit-phase paths as recorded, without the siblings that any
/// groups cover, is filled in with success, and is then the bundle that was recorded.
pub proof fn lemma_chal_bundle_restored(
    proof: StarkProofView,
    width: usize,
    params: FriParamsView,
    made: Vec<FriChalMmcsQueryProof>,
    groups: LeafMmcsFoldGroups,
    on: bool,
    dropped: Seq<FriChalMmcsQueryProof>,
    after: Seq<FriChalMmcsQueryProof>,
    r: Result<(), ChalMmcsError>,
)
    requires
        chal_proof_outcome(proof, width, params, Ok(made)),
        chal_dropped(made@, dropped, groups, on),
        chal_hydrate_outcome(proof, dropped, after, r),
    ensures
        r is Ok,
        after.len() == made@.len(),
        forall|q: int| 0 <= q < made@.len() ==> same_chal_record(made@[q], #[trigger] after[q]),
{
    let chal = choose|chal: AggFriChallenges| #[trigger]
        is_replay(chal, proof, params) && chal_bundle_outcome(proof, chal, width, Ok(made));
    let n = made@.len();
    let queries = proof.opening_proof.fri_proof.query_proofs@;
    let cover = chal_cover(groups, on);
    let f = |q: int| chal_fill_report(q, queries[q], dropped[q]);
    assert forall|q: int| 0 <= q < n implies #[trigger] f(q) is None by {
        let full = made@[q];
        let part = dropped[q];
        let rounds = queries[q].commit_phase_openings@;
        assert(is_chal_record(query_of(proof, chal, q), full));
        assert(chal_siblings_dropped(full, part, cover));
        let g = |i: int|
            if filled(part.commit_siblings@[i]@, rounds[i].opening_proof@)
                != rounds[i].opening_proof@ {
                Some(i as usize)
            } else {
                None
            };
        assert forall|i: int| 0 <= i < rounds.len() implies #[trigger] g(i) is None by {
            assert(full.commit_siblings@[i]@ == rounds[i].opening_proof@);
            assert(part.commit_siblings@[i]@.len() == 0 || part.commit_siblings@[i]
                == full.commit_siblings@[i]);
        }
        lemma_none_reported(rounds.len(), g);
    }
    lemma_none_reported(n, f);
    assert forall|q: int| 0 <= q < n implies same_chal_record(made@[q], #[trigger] after[q]) by {
        assert(is_chal_record(query_of(proof, chal, q), made@[q]));
        assert(chal_siblings_dropped(made@[q], dropped[q], cover));
        assert(chal_filled(queries[q], dropped[q], after[q]));
        lemma_chal_hydrate_undoes_drop(queries[q], made@[q], dropped[q], cover, after[q]);
    }
}

/// Siblings that are there and are not the opening's.
pub open spec fn differs(have: Seq<[u8; 32]>, opening: Seq<[u8; 32]>) -> bool {
    have.len() > 0 && have != opening
}

/// Trace or quotient siblings that are there and differ from the openings of their query are
/// refused.
pub proof fn lemma_val_differing_refused(
    proof: StarkProofView,
    width: usize,
    params: FriParamsView,
    before: Seq<FriValMmcsQueryProof>,
    after: Seq<FriValMmcsQueryProof>,
    r: Result<(), ValMmcsError>,
    q: int,
)
    requires
        val_hydrate_outcome(proof, width, params, before, after, r),
        0 <= q < before.len(),
        ({
            let openings =
                proof.opening_proof.fri_proof.query_proofs@[q].input_proof.input_openings@;
            differs(before[q].trace_siblings@, openings[0].opening_proof@) || differs(
                before[q].quot_siblings@,
                openings[1].opening_proof@,
            )
        }),
    ensures
        r is Err,
{
    if r is Ok {
        let chal = choose|chal: AggFriChallenges| #[trigger]
            is_replay(chal, proof, params) && checked(
                r,
                val_hydrate_report(proof, chal, before),
            ) && val_hydrated(proof, chal, before, after, r);
        let f = |q: int| val_fill_report(query_of(proof, chal, q), before[q]);
        lemma_first_some_none(before.len(), f, q);
        assert(f(q) is None);
    }
}

/// Filling in keeps the trace and quotient siblings that are there, whatever it returns.
pub proof fn lemma_val_present_kept(
    proof: StarkProofView,
    width: usize,
    params: FriParamsView,
    before: Seq<FriValMmcsQueryProof>,
    after: Seq<FriValMmcsQueryProof>,
    r: Result<(), ValMmcsError>,
    q: int,
)
    requires
        val_hydrate_outcome(proof, width, params, before, after, r),
        0 <= q < before.len(),
    ensures
        after.len() == before.len(),
        before[q].trace_siblings@.len() > 0 ==> after[q].trace_siblings@
            == before[q].trace_siblings@,
        before[q].quot_siblings@.len() > 0 ==> after[q].quot_siblings@
            == before[q].quot_siblings@,
{
    if query_count_ok(proof) && before.len()
        == proof.opening_proof.fri_proof.query_proofs@.len() && replay_report(
        proof,
        width,
        params,
    ) is None {
        let chal = choose|chal: AggFriChallenges| #[trigger]
            is_replay(chal, proof, params) && checked(
                r,
                val_hydrate_report(proof, chal, before),
            ) && val_hydrated(proof, chal, before, after, r);
        assert(after[q] == before[q] || val_filled(
            query_of(proof, chal, q),
            before[q],
            after[q],
        ));
    }
}

/// First-layer or commit-phase siblings that are there and differ from the openings of their
/// query are refused.
pub proof fn lemma_chal_differing_refused(
    proof: StarkProofView,
    before: Seq<FriChalMmcsQueryProof>,
    after: Seq<FriChalMmcsQueryProof>,
    r: Result<(), ChalMmcsError>,
    q: int,
)
    requires
        chal_hydrate_outcome(proof, before, after, r),
        0 <= q < before.len(),
        ({
            let qp = proof.opening_proof.fri_proof.query_proofs@[q];
            let rounds = qp.commit_phase_openings@;
            differs(before[q].first_layer.siblings@, qp.input_proof.first_layer_proof@) || exists|i: int|
                0 <= i < rounds.len() && i < before[q].commit_siblings@.len() && differs(
                    (#[trigger] before[q].commit_siblings@[i])@,
                    rounds[i].opening_proof@,
                )
        }),
    ensures
        r is Err,
{
    if r is Ok {
        let queries = proof.opening_proof.fri_proof.query_proofs@;
        let f = |q: int| chal_fill_report(q, queries[q], before[q]);
        lemma_first_some_none(before.len(), f, q);
        assert(f(q) is None);
        let rounds = queries[q].commit_phase_openings@;
        let g = |i: int|
            if filled(before[q].commit_siblings@[i]@, rounds[i].opening_proof@)
                != rounds[i].opening_proof@ {
                Some(i as usize)
            } else {
                None
            };
        assert forall|i: int| 0 <= i < rounds.len() implies filled(
            (#[trigger] before[q].commit_siblings@[i])@,
            rounds[i].opening_proof@,
        ) == rounds[i].opening_proof@ by {
            lemma_first_some_none(rounds.len(), g, i);
            assert(g(i) is None);
        }
    }
}

/// Filling in keeps the first-layer and commit-phase siblings that are there, whatever it
/// returns.
pub proof fn lemma_chal_present_kept(
    proof: StarkProofView,
    before: Seq<FriChalMmcsQueryProof>,
    after: Seq<FriChalMmcsQueryProof>,
    r: Result<(), ChalMmcsError>,
    q: int,
)
    requires
        chal_hydrate_outcome(proof, before, after, r),
        0 <= q < before.len(),
    ensures
        after.len() == before.len(),
        before[q].first_layer.siblings@.len() > 0 ==> after[q].first_layer.siblings@
            == before[q].first_layer.siblings@,
        after[q].commit_siblings@.len() == before[q].commit_siblings@.len(),
        forall|i: int|
            0 <= i < before[q].commit_siblings@.len() && before[q].commit_siblings@[i]@.len() > 0
                ==> (#[trigger] after[q].commit_siblings@[i])@ == before[q].commit_siblings@[i]@,
{
    let queries = proof.opening_proof.fri_proof.query_proofs@;
    if query_count_ok(proof) && before.len() == queries.len() && r is Err {
        let s = choose|s: int| #[trigger]
            chal_stops_at(queries, before, s) && chal_partly_filled(
                queries[s],
                before[s],
                after[s],
            ) && chal_filled_upto(queries, before, after.update(s, before[s]), s);
        if q == s {
            assert(chal_partly_filled(queries[q], before[q], after[q]));
        } else {
            let rest = after.update(s, before[s]);
            assert(rest[q] == after[q]);
            assert(rest[q] == before[q] || chal_filled(queries[q], before[q], rest[q]));
        }
    } else if query_count_ok(proof) && before.len() == queries.len() {
        assert(chal_filled(queries[q], before[q], after[q]));
    }
}

} // verus!
