//! Records that are bound to a proof: the openings of every query lead to the commitments of the
//! proof, at the positions drawn for them.
use vstd::prelude::*;

use crate::batch_path::{Batch, Dimensions};
use crate::bits::{exp2, lemma_shr_bounds, lemma_shr_divides};
use crate::chal_mmcs::{
    chal_bind_outcome, chal_bind_report, chal_bundle_outcome, chal_bundle_report,
    chal_query_report, first_layer_batch, in_full, is_chal_record, pair_row, round_bind_report,
    round_position, round_record_report, round_row, ChalMmcsError, FriChalMmcsQueryProof,
};
use crate::checks::{checked, lemma_first_some_none};
use crate::ext::Ext;
use crate::field::{vals, Val};
use crate::fri_fold_bind::{next_state, ri_chain};
use crate::fri_fold_native::{fold_pair, x_twiddle_inv};
use crate::fri_fs_replay::{is_replay, AggFriChallenges};
use crate::fri_mmcs_bind::{mmcs_bind_outcome, AggFriMmcsBundle};
use crate::fri_mmcs_group_m4b::{MmcsGroupPathAir, MmcsPathStatement};
use crate::fri_mmcs_m4c::{
    all_merged, chal_custom, chal_stage, first_by_digests, group_bind_outcome, leaf_bind_outcome,
    leaf_report, leaf_stages, optional_stage, round_by_digests, trace_stage, val_custom, val_stage,
    BindInput, GroupBindError,
};
use crate::fri_ro::RoInput;
use crate::group_bind_laws::{
    lemma_chal_stages, lemma_stages_succeeded, lemma_trace_chunks, lemma_val_stages,
};
use crate::mmcs_group_fold::PoseidonGroupFoldProof;
use crate::mmcs_statements::{
    are_statements, quot_stmt_report, single_quotients, LeafMmcsGroupStatements,
};
use crate::mmcs_strip::LeafMmcsFoldGroups;
use crate::openings_laws::{entering_pair, lemma_chain_position, sided};
use crate::path_check_laws::{
    batch_leads_to, leads_to, lemma_checked_batch, lemma_checked_path, lemma_recorded_path,
    row_digest,
};
use crate::pcs_view::{FriParamsView, StarkProofView};
use crate::val_mmcs::{
    is_val_record, query_of, quotient_batch, quotient_position, quotient_siblings, trace_position,
    trace_siblings, val_bind_outcome, val_bind_report, val_bundle_outcome, val_bundle_report,
    val_meta_report, val_query_report, val_shape_report, FriValMmcsQueryProof, ValMmcsError,
};

verus! {

/// The position of query `q` in a codeword whose height is below the tallest by `below` doublings.
pub open spec fn position_of(chal: AggFriChallenges, q: int, below: int) -> int {
    chal.query_indices@[q] as int / (exp2(below as nat) as int)
}

/// The trace row of query `q` leads to the trace commitment.
pub open spec fn trace_leads(proof: StarkProofView, chal: AggFriChallenges, q: int) -> bool {
    let fri = proof.opening_proof.fri_proof;
    let opening = fri.query_proofs@[q].input_proof.input_openings@[0];
    leads_to(
        row_digest(vals(opening.opened_values@[0]@)),
        opening.opening_proof@,
        position_of(chal, q, fri.commit_phase_commits@.len() + 1 - proof.degree_bits),
        proof.trace_commitment@[0]@,
    )
}

/// By how many doublings the trace codeword is below a quotient one: a single quotient chunk is
/// twice as tall, several are as tall.
pub open spec fn quotient_rise(proof: StarkProofView) -> int {
    if proof.quotient_chunks@.len() == 1 {
        1
    } else {
        0
    }
}

/// The position of query `q` in the quotient codewords.
pub open spec fn quotient_place(proof: StarkProofView, chal: AggFriChallenges, q: int) -> int {
    position_of(
        chal,
        q,
        proof.opening_proof.fri_proof.commit_phase_commits@.len() + 1 - proof.degree_bits
            - quotient_rise(proof),
    )
}

/// The quotient rows of query `q` as an opening of several matrices of three columns.
pub open spec fn quotient_opening(
    proof: StarkProofView,
    chal: AggFriChallenges,
    q: int,
    siblings: Seq<[u8; 32]>,
) -> Batch {
    let fri = proof.opening_proof.fri_proof;
    let rows = fri.query_proofs@[q].input_proof.input_openings@[1].opened_values@;
    let h = exp2((proof.degree_bits + quotient_rise(proof) + chal.log_blowup) as nat) as usize;
    Batch {
        rows: Seq::new(rows.len(), |i: int| vals(rows[i]@)),
        dims: Seq::new(proof.quotient_chunks@.len(), |i: int| Dimensions { width: 3, height: h }),
        siblings,
        index: quotient_place(proof, chal, q),
    }
}

/// The quotient rows of query `q` lead to the quotient commitment: together, where the record
/// holds a joint path, and else the one row.
pub open spec fn quotient_leads(
    proof: StarkProofView,
    chal: AggFriChallenges,
    q: int,
    p: FriValMmcsQueryProof,
) -> bool {
    let fri = proof.opening_proof.fri_proof;
    let opening = fri.query_proofs@[q].input_proof.input_openings@[1];
    let root = proof.quotient_commitment@[0]@;
    match p.quot_batch {
        Some(b) => batch_leads_to(quotient_opening(proof, chal, q, b.siblings@), root),
        None => opening.opened_values@.len() > 0 && leads_to(
            row_digest(vals(opening.opened_values@[0]@)),
            opening.opening_proof@,
            quotient_place(proof, chal, q),
            root,
        ),
    }
}

/// The trace and quotient record of query `q` belongs to the proof.
pub open spec fn val_leads(
    proof: StarkProofView,
    chal: AggFriChallenges,
    width: usize,
    q: int,
    p: FriValMmcsQueryProof,
) -> bool {
    let input = proof.opening_proof.fri_proof.query_proofs@[q].input_proof.input_openings@;
    &&& input.len() >= 2
    &&& input[0].opened_values@.len() > 0
    &&& input[0].opened_values@[0]@.len() == width
    &&& p.trace_siblings@ == input[0].opening_proof@
    &&& p.quot_siblings@ == input[1].opening_proof@
    &&& p.trace_index == position_of(
        chal,
        q,
        proof.opening_proof.fri_proof.commit_phase_commits@.len() + 1 - proof.degree_bits,
    )
    &&& p.quot_index == quotient_place(proof, chal, q)
    &&& trace_leads(proof, chal, q)
    &&& quotient_leads(proof, chal, q, p)
}

/// The first-layer pairs of query `q` as an opening of matrices of six columns.
pub open spec fn first_layer_opening(
    proof: StarkProofView,
    chal: AggFriChallenges,
    q: int,
) -> Batch {
    let pcs = proof.opening_proof;
    let ri = query_of(proof, chal, q);
    let input = pcs.fri_proof.query_proofs@[q].input_proof;
    let top = pcs.fri_proof.commit_phase_commits@.len() + 1 + chal.log_blowup;
    let n = ri.sums().len();
    Batch {
        rows: Seq::new(
            n,
            |k: int|
                limbs(
                    sided(
                        position_of(chal, q, top - ri.sums()[k].0),
                        ri.corrected(k),
                        input.first_layer_siblings@[k]@,
                    ),
                ),
        ),
        dims: Seq::new(
            n,
            |k: int|
                Dimensions { width: 6, height: exp2((ri.sums()[k].0 - 1) as nat) as usize },
        ),
        siblings: input.first_layer_proof@,
        index: chal.query_indices@[q] as int / 2,
    }
}

/// The limbs of a pair.
pub open spec fn limbs(pair: (Ext, Ext)) -> Seq<int> {
    seq![pair.0.c0, pair.0.c1, pair.0.c2, pair.1.c0, pair.1.c1, pair.1.c2]
}

/// The pair of round `k` of query `q` leads to the commitment of that round, and what the round
/// gives is the fold of that pair with the round's challenge.
pub open spec fn round_leads(
    proof: StarkProofView,
    chal: AggFriChallenges,
    q: int,
    k: int,
) -> bool {
    let fri = proof.opening_proof.fri_proof;
    let rounds = fri.query_proofs@[q].commit_phase_openings@;
    let c = ri_chain(query_of(proof, chal, q));
    let h = rounds.len() + chal.log_blowup - k;
    let pair = entering_pair(proof, chal, q, k);
    &&& rounds[k].sibling_values@.len() > 0
    &&& k < fri.commit_phase_commits@.len()
    &&& k < chal.betas@.len()
    &&& leads_to(
        row_digest(limbs(pair)),
        rounds[k].opening_proof@,
        position_of(chal, q, k + 1) / 2,
        fri.commit_phase_commits@[k]@[0]@,
    )
    &&& c.state((k + 1) as nat).eval == fold_pair(
        x_twiddle_inv(position_of(chal, q, k + 1) / 2, (h - 1) as nat),
        chal.betas@[k]@,
        pair.0,
        pair.1,
    )
}

/// A first-layer and commit-phase record holds the siblings and positions of query `q`.
pub open spec fn holds_rounds(
    proof: StarkProofView,
    chal: AggFriChallenges,
    q: int,
    p: FriChalMmcsQueryProof,
) -> bool {
    let query = proof.opening_proof.fri_proof.query_proofs@[q];
    let rounds = query.commit_phase_openings@;
    &&& p.first_layer.siblings@ == query.input_proof.first_layer_proof@
    &&& p.commit_paths@.len() == rounds.len()
    &&& forall|k: int|
        0 <= k < rounds.len() ==> (#[trigger] p.commit_siblings@[k])@ == rounds[k].opening_proof@
    &&& forall|k: int|
        0 <= k < rounds.len() ==> (#[trigger] p.commit_indices@[k]) == position_of(chal, q, k + 1)
            / 2
}

/// The first-layer and commit-phase openings of query `q` belong to the proof.
pub open spec fn chal_leads(proof: StarkProofView, chal: AggFriChallenges, q: int) -> bool {
    let pcs = proof.opening_proof;
    &&& batch_leads_to(
        first_layer_opening(proof, chal, q),
        pcs.first_layer_commitment@[0]@,
    )
    &&& forall|k: int|
        0 <= k < pcs.fri_proof.query_proofs@[q].commit_phase_openings@.len()
            ==> #[trigger] round_leads(proof, chal, q, k)
}

/// A position, by division.
proof fn lemma_position_of(ri: RoInput, h: int)
    requires
        0 <= ri.query < ri.chal.query_indices@.len(),
        h <= ri.log_max_height(),
    ensures
        ri.index_at(h) == position_of(ri.chal, ri.query, ri.log_max_height() - h),
        0 <= ri.index_at(h),
{
    lemma_shr_divides(ri.query_index(), (ri.log_max_height() - h) as nat);
    lemma_shr_bounds(ri.query_index(), (ri.log_max_height() - h) as nat);
}

/// Where the trace and quotient openings of a query stand.
pub(crate) proof fn lemma_places(proof: StarkProofView, chal: AggFriChallenges, q: int)
    requires
        val_shape_report(proof, chal) is None,
        0 <= q < chal.query_indices@.len(),
    ensures
        ({
            let ri = query_of(proof, chal, q);
            &&& trace_position(ri) == position_of(
                chal,
                q,
                proof.opening_proof.fri_proof.commit_phase_commits@.len() + 1 - proof.degree_bits,
            )
            &&& quotient_position(ri) == quotient_place(proof, chal, q)
            &&& trace_position(ri) >= 0
            &&& quotient_position(ri) >= 0
            &&& ri.quotient_height() == proof.degree_bits + quotient_rise(proof) + chal.log_blowup
        }),
{
    let ri = query_of(proof, chal, q);
    let r0 = query_of(proof, chal, 0);
    assert(r0.trace_height() == ri.trace_height());
    assert(r0.quotient_height() == ri.quotient_height());
    assert(r0.log_max_height() == ri.log_max_height());
    lemma_position_of(ri, ri.trace_height());
    lemma_position_of(ri, ri.quotient_height());
}

/// The quotient rows of a query, as they are checked.
proof fn lemma_quotient_opening(
    proof: StarkProofView,
    chal: AggFriChallenges,
    q: int,
    siblings: Seq<[u8; 32]>,
)
    requires
        val_shape_report(proof, chal) is None,
        0 <= q < chal.query_indices@.len(),
    ensures
        quotient_batch(query_of(proof, chal, q), siblings) == quotient_opening(
            proof,
            chal,
            q,
            siblings,
        ),
        quotient_opening(proof, chal, q, siblings).dims.len() > 0,
{
    lemma_places(proof, chal, q);
    let a = quotient_batch(query_of(proof, chal, q), siblings);
    let b = quotient_opening(proof, chal, q, siblings);
    assert(a.rows =~= b.rows);
    assert(a.dims =~= b.dims);
}

/// A record whose paths pass, in full or by their digests.
proof fn lemma_val_parts(
    proof: StarkProofView,
    chal: AggFriChallenges,
    width: usize,
    q: int,
    p: FriValMmcsQueryProof,
)
    requires
        val_shape_report(proof, chal) is None,
        0 <= q,
        val_meta_report(query_of(proof, chal, q), width, p) is None,
        p.quot_index == quotient_position(query_of(proof, chal, q)),
        ({
            let ri = query_of(proof, chal, q);
            let row = vals(ri.trace_row());
            let root = proof.trace_commitment@[0]@;
            ||| crate::fri_mmcs_path::path_record_valid(
                row,
                p.trace_siblings@,
                trace_position(ri),
                root,
                p.trace_path,
            )
            ||| crate::path_strip::path_digests_valid(
                row,
                p.trace_siblings@,
                trace_position(ri),
                root,
                p.trace_path,
            )
        }),
        ({
            let ri = query_of(proof, chal, q);
            let root = proof.quotient_commitment@[0]@;
            match p.quot_batch {
                Some(b) => quotient_batch(ri, b.siblings@).replay_valid(root, b)
                    || quotient_batch(ri, b.siblings@).digests_valid(root, b),
                None => ri.input().input_openings@[1].opened_values@.len() > 0 && {
                    let row = vals(ri.chunk_row(0));
                    ||| crate::fri_mmcs_path::path_record_valid(
                        row,
                        p.quot_siblings@,
                        quotient_position(ri),
                        root,
                        p.quot_path,
                    )
                    ||| crate::path_strip::path_digests_valid(
                        row,
                        p.quot_siblings@,
                        quotient_position(ri),
                        root,
                        p.quot_path,
                    )
                },
            }
        }),
    ensures
        val_leads(proof, chal, width, q, p),
{
    let ri = query_of(proof, chal, q);
    lemma_places(proof, chal, q);
    lemma_checked_path(
        vals(ri.trace_row()),
        p.trace_siblings@,
        trace_position(ri),
        proof.trace_commitment@[0]@,
        p.trace_path,
    );
    let root = proof.quotient_commitment@[0]@;
    match p.quot_batch {
        Some(b) => {
            lemma_quotient_opening(proof, chal, q, b.siblings@);
            lemma_checked_batch(quotient_batch(ri, b.siblings@), root, b);
        },
        None => {
            lemma_checked_path(
                vals(ri.chunk_row(0)),
                p.quot_siblings@,
                quotient_position(ri),
                root,
                p.quot_path,
            );
        },
    }
}

/// Trace and quotient records that are bound to a proof, given the challenges: each leads to the
/// commitments.
pub proof fn lemma_val_bound_with(
    proof: StarkProofView,
    chal: AggFriChallenges,
    width: usize,
    bundle: Seq<FriValMmcsQueryProof>,
)
    requires
        val_bundle_report(proof, chal, width, bundle) is None,
    ensures
        forall|q: int|
            0 <= q < bundle.len() ==> val_leads(proof, chal, width, q, #[trigger] bundle[q]),
{
    let f = |q: int| val_bind_report(query_of(proof, chal, q), width, bundle[q]);
    assert forall|q: int| 0 <= q < bundle.len() implies val_leads(
        proof,
        chal,
        width,
        q,
        #[trigger] bundle[q],
    ) by {
        lemma_first_some_none(bundle.len(), f, q);
        assert(val_bind_report(query_of(proof, chal, q), width, bundle[q]) is None);
        lemma_val_parts(proof, chal, width, q, bundle[q]);
    }
}

/// Trace and quotient records that are bound to a proof: there is one for each query, and each
/// leads to the commitments.
pub proof fn lemma_val_bound(
    proof: StarkProofView,
    width: usize,
    params: FriParamsView,
    bundle: Seq<FriValMmcsQueryProof>,
)
    requires
        val_bind_outcome(proof, width, params, bundle, Ok(())),
    ensures
        bundle.len() == proof.opening_proof.fri_proof.query_proofs@.len(),
        exists|chal: AggFriChallenges|
            {
                &&& #[trigger] is_replay(chal, proof, params)
                &&& forall|q: int|
                    0 <= q < bundle.len() ==> val_leads(
                        proof,
                        chal,
                        width,
                        q,
                        #[trigger] bundle[q],
                    )
            },
{
    let r = Ok::<(), ValMmcsError>(());
    let chal = choose|chal: AggFriChallenges| #[trigger]
        is_replay(chal, proof, params) && checked(
            r,
            val_bundle_report(proof, chal, width, bundle),
        );
    lemma_val_bound_with(proof, chal, width, bundle);
}

/// The limbs of a pair.
pub(crate) proof fn lemma_limbs(pair: (Ext, Ext))
    ensures
        pair_row(pair) == limbs(pair),
{
    assert(pair_row(pair) =~= limbs(pair));
}

/// The first layer of a query, as it is checked.
pub(crate) proof fn lemma_first_layer_opening(
    proof: StarkProofView,
    chal: AggFriChallenges,
    width: usize,
    q: int,
)
    requires
        0 <= q,
        query_of(proof, chal, q).report(width) is None,
    ensures
        first_layer_batch(
            query_of(proof, chal, q),
            query_of(proof, chal, q).input().first_layer_proof@,
        ) == first_layer_opening(proof, chal, q),
        first_layer_opening(proof, chal, q).dims.len() > 0,
{
    let ri = query_of(proof, chal, q);
    let a = first_layer_batch(ri, ri.input().first_layer_proof@);
    let b = first_layer_opening(proof, chal, q);
    lemma_first_some_none(ri.chunks() as nat, |i: int| ri.chunk_report(i), 0);
    assert(ri.chunk_report(0) is None);
    assert forall|k: int| 0 <= k < a.rows.len() implies a.rows[k] == b.rows[k] by {
        let h = ri.sums()[k].0;
        lemma_position_of(ri, h);
        lemma_limbs(ri.pair(k));
    }
    assert(a.rows =~= b.rows);
    assert(a.dims =~= b.dims);
}

/// One round of a record.
proof fn lemma_round_leads(
    proof: StarkProofView,
    chal: AggFriChallenges,
    q: int,
    p: FriChalMmcsQueryProof,
    by_digests: bool,
    k: int,
)
    requires
        chal.extra_query_index_bits == 1,
        0 <= q < chal.query_indices@.len(),
        0 <= k < proof.opening_proof.fri_proof.query_proofs@[q].commit_phase_openings@.len(),
        round_bind_report(
            ri_chain(query_of(proof, chal, q)),
            proof.opening_proof.fri_proof.commit_phase_commits@,
            p,
            by_digests,
            k,
        ) is None,
    ensures
        round_leads(proof, chal, q, k),
{
    let c = ri_chain(query_of(proof, chal, q));
    let s = c.state(k as nat);
    lemma_chain_position(c, k as nat);
    let pair = entering_pair(proof, chal, q, k);
    lemma_limbs(pair);
    lemma_checked_path(
        round_row(c, k),
        p.commit_siblings@[k]@,
        round_position(c, k),
        proof.opening_proof.fri_proof.commit_phase_commits@[k]@[0]@,
        p.commit_paths@[k],
    );
    assert(c.betas[k] == chal.betas@[k]@);
    assert(c.state((k + 1) as nat) == next_state(
        s,
        c.ros,
        c.betas[k],
        c.rounds[k].sibling_values@[0]@,
    ));
}

/// A first-layer and commit-phase record that agrees with a query.
proof fn lemma_chal_parts_lead(
    proof: StarkProofView,
    chal: AggFriChallenges,
    width: usize,
    q: int,
    p: FriChalMmcsQueryProof,
    first_by_digests: bool,
    rounds_by_digests: Seq<bool>,
)
    requires
        chal.extra_query_index_bits == 1,
        0 <= q,
        chal_bind_report(
            query_of(proof, chal, q),
            width,
            p,
            first_by_digests,
            rounds_by_digests,
        ) is None,
    ensures
        chal_leads(proof, chal, q),
        holds_rounds(proof, chal, q, p),
{
    let ri = query_of(proof, chal, q);
    let c = ri_chain(ri);
    let commits = proof.opening_proof.fri_proof.commit_phase_commits@;
    lemma_first_layer_opening(proof, chal, width, q);
    lemma_checked_batch(
        first_layer_batch(ri, p.first_layer.siblings@),
        proof.opening_proof.first_layer_commitment@[0]@,
        p.first_layer,
    );
    let f = |r: int| round_bind_report(c, commits, p, rounds_by_digests[r], r);
    assert forall|k: int|
        0 <= k
            < c.rounds.len() implies #[trigger] round_leads(
        proof,
        chal,
        q,
        k,
    ) by {
        lemma_first_some_none(c.rounds.len(), f, k);
        lemma_round_leads(proof, chal, q, p, rounds_by_digests[k], k);
    }
    assert forall|k: int| 0 <= k < c.rounds.len() implies (#[trigger] p.commit_siblings@[k])@
        == c.rounds[k].opening_proof@ by {
        lemma_first_some_none(c.rounds.len(), f, k);
        assert(round_bind_report(c, commits, p, rounds_by_digests[k], k) is None);
    }
    assert forall|k: int| 0 <= k < c.rounds.len() implies (#[trigger] p.commit_indices@[k])
        == position_of(chal, q, k + 1) / 2 by {
        lemma_first_some_none(c.rounds.len(), f, k);
        assert(round_bind_report(c, commits, p, rounds_by_digests[k], k) is None);
        lemma_chain_position(c, k as nat);
    }
}

/// First-layer and commit-phase records that are bound to a proof, given the challenges: each
/// leads to the commitments.
pub proof fn lemma_chal_bound_with(
    proof: StarkProofView,
    chal: AggFriChallenges,
    width: usize,
    bundle: Seq<FriChalMmcsQueryProof>,
)
    requires
        chal.extra_query_index_bits == 1,
        chal_bundle_report(proof, chal, width, bundle) is None,
    ensures
        forall|q: int| 0 <= q < bundle.len() ==> #[trigger] chal_leads(proof, chal, q),
        forall|q: int|
            0 <= q < bundle.len() ==> holds_rounds(proof, chal, q, #[trigger] bundle[q]),
{
    let f = |q: int|
        chal_bind_report(query_of(proof, chal, q), width, bundle[q], false, in_full(bundle[q]));
    assert forall|q: int| 0 <= q < bundle.len() implies #[trigger] chal_leads(proof, chal, q) by {
        lemma_first_some_none(bundle.len(), f, q);
        lemma_chal_parts_lead(proof, chal, width, q, bundle[q], false, in_full(bundle[q]));
    }
    assert forall|q: int| 0 <= q < bundle.len() implies holds_rounds(
        proof,
        chal,
        q,
        #[trigger] bundle[q],
    ) by {
        lemma_first_some_none(bundle.len(), f, q);
        lemma_chal_parts_lead(proof, chal, width, q, bundle[q], false, in_full(bundle[q]));
    }
}

/// First-layer and commit-phase records that are bound to a proof: there is one for each query,
/// and each leads to the commitments.
pub proof fn lemma_chal_bound(
    proof: StarkProofView,
    width: usize,
    params: FriParamsView,
    bundle: Seq<FriChalMmcsQueryProof>,
)
    requires
        chal_bind_outcome(proof, width, params, bundle, Ok(())),
    ensures
        bundle.len() == proof.opening_proof.fri_proof.query_proofs@.len(),
        exists|chal: AggFriChallenges|
            {
                &&& #[trigger] is_replay(chal, proof, params)
                &&& forall|q: int| 0 <= q < bundle.len() ==> #[trigger] chal_leads(proof, chal, q)
                &&& forall|q: int|
                    0 <= q < bundle.len() ==> holds_rounds(proof, chal, q, #[trigger] bundle[q])
            },
{
    let r = Ok::<(), ChalMmcsError>(());
    let chal = choose|chal: AggFriChallenges| #[trigger]
        is_replay(chal, proof, params) && checked(
            r,
            chal_bundle_report(proof, chal, width, bundle),
        );
    lemma_chal_bound_with(proof, chal, width, bundle);
}

/// All records that are bound to a proof: those of every query lead to the commitments.
pub proof fn lemma_bundle_bound(
    proof: StarkProofView,
    width: usize,
    params: FriParamsView,
    bundle: AggFriMmcsBundle,
)
    requires
        mmcs_bind_outcome(proof, width, params, bundle, Ok(())),
    ensures
        bundle.val@.len() == proof.opening_proof.fri_proof.query_proofs@.len(),
        bundle.chal@.len() == proof.opening_proof.fri_proof.query_proofs@.len(),
        exists|chal: AggFriChallenges|
            {
                &&& #[trigger] is_replay(chal, proof, params)
                &&& forall|q: int|
                    0 <= q < bundle.val@.len() ==> val_leads(
                        proof,
                        chal,
                        width,
                        q,
                        #[trigger] bundle.val@[q],
                    )
            },
        exists|chal: AggFriChallenges|
            {
                &&& #[trigger] is_replay(chal, proof, params)
                &&& forall|q: int|
                    0 <= q < bundle.chal@.len() ==> #[trigger] chal_leads(proof, chal, q)
                &&& forall|q: int|
                    0 <= q < bundle.chal@.len() ==> holds_rounds(
                        proof,
                        chal,
                        q,
                        #[trigger] bundle.chal@[q],
                    )
            },
{
    lemma_val_bound(proof, width, params, bundle.val@);
    lemma_chal_bound(proof, width, params, bundle.chal@);
}

/// The trace and quotient records beside groups.
proof fn lemma_val_stage_leads<
    K: Fn(&MmcsGroupPathAir, &[Val], &[u8]) -> bool,
    P: Fn(&[MmcsPathStatement], &PoseidonGroupFoldProof) -> bool,
>(
    keccak: K,
    poseidon: P,
    b: BindInput,
    s: LeafMmcsGroupStatements,
    one_list: bool,
    q: int,
)
    requires
        leaf_report(b) is None,
        are_statements(s, b.proof, b.chal, b.width, b.bundle),
        val_stage(keccak, poseidon, b, s, one_list, Ok(())),
        0 <= q < b.bundle.val@.len(),
    ensures
        val_leads(b.proof, b.chal, b.width, q, b.bundle.val@[q]),
{
    if val_custom(b) {
        lemma_val_stages(keccak, poseidon, b, s, one_list);
        let merged = b.val_merged(s, one_list);
        let f = |q: int| b.val_query_report(q, merged);
        lemma_first_some_none(b.bundle.val@.len(), f, q);
        assert(b.val_query_report(q, merged) is None);
        if one_list {
            reveal(trace_stage);
        } else if b.groups.val_trace@.len() > 0 {
            lemma_trace_chunks(keccak, poseidon, b, s);
        }
        if b.trace_digests_report() is None {
            let g = |q: int|
                if b.trace_digests(q) {
                    None
                } else {
                    Some(GroupBindError::TraceDigests(q as usize))
                };
            lemma_first_some_none(b.bundle.val@.len(), g, q);
            assert(b.trace_digests(q));
        }
        if b.groups.val_quot@.len() > 0 {
            reveal(optional_stage);
            assert(single_quotients(b.proof, b.bundle.val@));
            let h = |q: int| quot_stmt_report(query_of(b.proof, b.chal, q), b.bundle.val@[q]);
            lemma_first_some_none(b.bundle.val@.len(), h, q);
            assert(quot_stmt_report(b.query(q), b.bundle.val@[q]) is None);
        }
        lemma_val_parts(b.proof, b.chal, b.width, q, b.bundle.val@[q]);
    } else {
        lemma_val_bound_with(b.proof, b.chal, b.width, b.bundle.val@);
    }
}

/// The first-layer and commit-phase records beside groups.
proof fn lemma_chal_stage_leads<
    K: Fn(&MmcsGroupPathAir, &[Val], &[u8]) -> bool,
    P: Fn(&[MmcsPathStatement], &PoseidonGroupFoldProof) -> bool,
>(
    keccak: K,
    poseidon: P,
    b: BindInput,
    s: LeafMmcsGroupStatements,
    one_list: bool,
    q: int,
)
    requires
        b.chal.extra_query_index_bits == 1,
        chal_stage(keccak, poseidon, b, s, one_list, Ok(())),
        0 <= q < b.bundle.chal@.len(),
    ensures
        chal_leads(b.proof, b.chal, q),
        holds_rounds(b.proof, b.chal, q, b.bundle.chal@[q]),
{
    if chal_custom(b, one_list) {
        lemma_chal_stages(keccak, poseidon, b, s, one_list);
        let f = |q: int| b.chal_query_report(s, one_list, q);
        lemma_first_some_none(b.bundle.chal@.len(), f, q);
        assert(b.chal_query_report(s, one_list, q) is None);
        let p = b.bundle.chal@[q];
        lemma_chal_parts_lead(
            b.proof,
            b.chal,
            b.width,
            q,
            p,
            first_by_digests(b.groups, s, one_list, p),
            Seq::new(
                p.commit_paths@.len(),
                |r: int| round_by_digests(b.groups, s, one_list, p.commit_paths@[r]),
            ),
        );
    } else {
        lemma_chal_bound_with(b.proof, b.chal, b.width, b.bundle.chal@);
    }
}

/// Records that are bound to a proof with groups: whatever the groups cover, there is a record
/// for each query, and each leads to the commitments.
pub proof fn lemma_grouped_bundle_bound<
    K: Fn(&MmcsGroupPathAir, &[Val], &[u8]) -> bool,
    P: Fn(&[MmcsPathStatement], &PoseidonGroupFoldProof) -> bool,
>(
    keccak: K,
    poseidon: P,
    proof: StarkProofView,
    bundle: AggFriMmcsBundle,
    groups: LeafMmcsFoldGroups,
    width: usize,
    params: FriParamsView,
)
    requires
        group_bind_outcome(keccak, poseidon, proof, bundle, groups, width, params, Ok(())),
    ensures
        bundle.val@.len() == proof.opening_proof.fri_proof.query_proofs@.len(),
        bundle.chal@.len() == proof.opening_proof.fri_proof.query_proofs@.len(),
        exists|chal: AggFriChallenges|
            {
                &&& #[trigger] is_replay(chal, proof, params)
                &&& forall|q: int|
                    0 <= q < bundle.val@.len() ==> val_leads(
                        proof,
                        chal,
                        width,
                        q,
                        #[trigger] bundle.val@[q],
                    )
                &&& forall|q: int|
                    0 <= q < bundle.chal@.len() ==> #[trigger] chal_leads(proof, chal, q)
                &&& forall|q: int|
                    0 <= q < bundle.chal@.len() ==> holds_rounds(
                        proof,
                        chal,
                        q,
                        #[trigger] bundle.chal@[q],
                    )
            },
{
    let r = Ok::<(), GroupBindError>(());
    let chal = choose|chal: AggFriChallenges| #[trigger]
        is_replay(chal, proof, params) && leaf_bind_outcome(
            keccak,
            poseidon,
            (BindInput { proof, chal, width, bundle, groups }),
            r,
        );
    let b = BindInput { proof, chal, width, bundle, groups };
    assert(leaf_report(b) is None);
    let s = choose|s: LeafMmcsGroupStatements| #[trigger]
        are_statements(s, b.proof, b.chal, b.width, b.bundle) && leaf_stages(
            keccak,
            poseidon,
            b,
            s,
            b.groups.pcs_combined || all_merged(b.groups, s),
            r,
        );
    let one_list = groups.pcs_combined || all_merged(groups, s);
    lemma_stages_succeeded(keccak, poseidon, b, s, one_list);
    assert forall|q: int| 0 <= q < bundle.val@.len() implies val_leads(
        proof,
        chal,
        width,
        q,
        #[trigger] bundle.val@[q],
    ) by {
        lemma_val_stage_leads(keccak, poseidon, b, s, one_list, q);
    }
    assert forall|q: int| 0 <= q < bundle.chal@.len() implies #[trigger] chal_leads(
        proof,
        chal,
        q,
    ) by {
        lemma_chal_stage_leads(keccak, poseidon, b, s, one_list, q);
    }
    assert forall|q: int| 0 <= q < bundle.chal@.len() implies holds_rounds(
        proof,
        chal,
        q,
        #[trigger] bundle.chal@[q],
    ) by {
        lemma_chal_stage_leads(keccak, poseidon, b, s, one_list, q);
    }
}

/// Trace and quotient records that are made of a proof: one for each query, and each leads to
/// the commitments by the paths of the proof; the quotient rows are recorded together where
/// there are several chunks, and only there.
pub proof fn lemma_val_made(
    proof: StarkProofView,
    chal: AggFriChallenges,
    width: usize,
    v: Vec<FriValMmcsQueryProof>,
    q: int,
)
    requires
        val_bundle_outcome(proof, chal, width, Ok(v)),
        0 <= q < v@.len(),
    ensures
        v@.len() == proof.opening_proof.fri_proof.query_proofs@.len(),
        ({
            let input = proof.opening_proof.fri_proof.query_proofs@[q].input_proof.input_openings@;
            let p = v@[q];
            &&& trace_leads(proof, chal, q)
            &&& quotient_leads(proof, chal, q, p)
            &&& input[0].opened_values@[0]@.len() == width
            &&& p.trace_siblings@ == input[0].opening_proof@
            &&& p.quot_siblings@ == input[1].opening_proof@
            &&& p.quot_batch is Some <==> proof.quotient_chunks@.len() != 1
            &&& p.quot_batch matches Some(b) ==> b.siblings@ == input[1].opening_proof@
        }),
{
    let ri = query_of(proof, chal, q);
    let p = v@[q];
    let n = proof.opening_proof.fri_proof.query_proofs@.len();
    let f = |q: int| val_query_report(query_of(proof, chal, q), width);
    lemma_first_some_none(n, f, q);
    assert(val_query_report(ri, width) is None);
    assert(is_val_record(ri, p));
    lemma_places(proof, chal, q);
    lemma_recorded_path(
        vals(ri.trace_row()),
        trace_siblings(ri),
        trace_position(ri),
        proof.trace_commitment@[0]@,
    );
    let root = proof.quotient_commitment@[0]@;
    if proof.quotient_chunks@.len() == 1 {
        lemma_recorded_path(
            vals(ri.chunk_row(0)),
            quotient_siblings(ri),
            quotient_position(ri),
            root,
        );
    } else {
        let b = p.quot_batch->0;
        lemma_quotient_opening(proof, chal, q, b.siblings@);
        lemma_checked_batch(quotient_batch(ri, b.siblings@), root, b);
    }
}

/// First-layer and commit-phase records that are made of a proof: one for each query, and each
/// leads to the commitments by the paths of the proof.
pub proof fn lemma_chal_made(
    proof: StarkProofView,
    chal: AggFriChallenges,
    width: usize,
    v: Vec<FriChalMmcsQueryProof>,
    q: int,
)
    requires
        chal.extra_query_index_bits == 1,
        chal_bundle_outcome(proof, chal, width, Ok(v)),
        0 <= q < v@.len(),
    ensures
        v@.len() == proof.opening_proof.fri_proof.query_proofs@.len(),
        chal_leads(proof, chal, q),
        ({
            let query = proof.opening_proof.fri_proof.query_proofs@[q];
            let rounds = query.commit_phase_openings@;
            &&& v@[q].first_layer.siblings@ == query.input_proof.first_layer_proof@
            &&& v@[q].commit_siblings@.len() == rounds.len()
            &&& v@[q].commit_paths@.len() == rounds.len()
            &&& forall|k: int|
                0 <= k < rounds.len() ==> (#[trigger] v@[q].commit_siblings@[k])@
                    == rounds[k].opening_proof@
        }),
{
    let ri = query_of(proof, chal, q);
    let c = ri_chain(ri);
    let commits = proof.opening_proof.fri_proof.commit_phase_commits@;
    let n = proof.opening_proof.fri_proof.query_proofs@.len();
    let f = |q: int| chal_query_report(query_of(proof, chal, q), width);
    lemma_first_some_none(n, f, q);
    assert(chal_query_report(ri, width) is None);
    assert(is_chal_record(ri, v@[q]));
    lemma_first_layer_opening(proof, chal, width, q);
    lemma_checked_batch(
        first_layer_batch(ri, ri.input().first_layer_proof@),
        proof.opening_proof.first_layer_commitment@[0]@,
        v@[q].first_layer,
    );
    let g = |r: int| round_record_report(c, commits, r);
    assert forall|k: int|
        0 <= k < c.rounds.len() implies #[trigger] round_leads(proof, chal, q, k) by {
        lemma_first_some_none(c.rounds.len(), g, k);
        assert(round_record_report(c, commits, k) is None);
        lemma_chain_position(c, k as nat);
        lemma_limbs(entering_pair(proof, chal, q, k));
        lemma_recorded_path(
            round_row(c, k),
            c.rounds[k].opening_proof@,
            round_position(c, k),
            commits[k]@[0]@,
        );
        assert(c.betas[k] == chal.betas@[k]@);
        assert(c.state((k + 1) as nat) == next_state(
            c.state(k as nat),
            c.ros,
            c.betas[k],
            c.rounds[k].sibling_values@[0]@,
        ));
    }
}

} // verus!
