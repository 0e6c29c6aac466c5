//! What the openings of a proof are stated as: each opened row once, with its path, its position
//! and the commitment it belongs to.
use vstd::prelude::*;

use crate::batch_path::{heights_of, tallest_first};
use crate::bits::exp2;
use crate::chal_mmcs::first_layer_batch;
use crate::checks::lemma_first_some_none;
use crate::field::vals;
use crate::fri_fold_bind::ri_chain;
use crate::fri_fs_replay::AggFriChallenges;
use crate::fri_mmcs_bind::AggFriMmcsBundle;
use crate::fri_mmcs_group_m4b::MmcsPathStatement;
use crate::group_bind_laws::{lemma_states_all, states};
use crate::mmcs_bind_laws::{
    first_layer_opening, lemma_first_layer_opening, lemma_limbs, lemma_places, limbs,
    quotient_place,
};
use crate::mmcs_statements::{
    are_statements, claims_of, commit_claims, first_layer_claim, first_layer_event, has_depth,
    is_by_depth, of_depth, query_commit_claims, quot_batch_claim, quot_rows, round_claim,
    LeafMmcsGroupStatements, PathClaim,
};
use crate::openings_laws::{entering_pair, lemma_chain_position};
use crate::path_check_laws::{end_to_end, lemma_joint_row, lemma_order};
use crate::pcs_view::StarkProofView;
use crate::val_mmcs::{quotient_dims, query_of, val_shape_report};

verus! {

/// The numbers below `n`, in order.
pub open spec fn in_order(n: nat) -> Seq<int> {
    Seq::new(n, |i: int| i)
}

/// A list of ascending numbers that holds exactly those below `n`.
proof fn lemma_ascending(s: Seq<int>, n: nat)
    requires
        forall|x: int| #[trigger] s.contains(x) <==> 0 <= x < n,
        forall|i: int, j: int| 0 <= i < j < s.len() ==> #[trigger] s[i] < #[trigger] s[j],
    ensures
        s == in_order(n),
    decreases n,
{
    if n == 0 {
        if s.len() > 0 {
            assert(s.contains(s[0]));
        }
        assert(s =~= in_order(n));
    } else {
        let m = (n - 1) as nat;
        assert(s.contains(m as int));
        let k = choose|k: int| 0 <= k < s.len() && s[k] == m;
        if k < s.len() - 1 {
            assert(s[k] < s[s.len() - 1]);
            assert(s.contains(s[s.len() - 1]));
        }
        let rest = s.drop_last();
        assert forall|x: int| #[trigger] rest.contains(x) <==> 0 <= x < m by {
            if rest.contains(x) {
                let i = choose|i: int| 0 <= i < rest.len() && rest[i] == x;
                assert(s[i] == x);
                assert(s.contains(x));
                assert(s[i] < s[k]);
            }
            if 0 <= x < m {
                assert(s.contains(x));
                let i = choose|i: int| 0 <= i < s.len() && s[i] == x;
                assert(rest[i] == x);
            }
        }
        lemma_ascending(rest, m);
        assert(k == s.len() - 1);
        assert(rest.len() == m);
        assert forall|i: int| 0 <= i < s.len() implies s[i] == in_order(n)[i] by {
            if i < m {
                assert(s[i] == rest[i]);
            }
        }
        assert(s =~= in_order(n));
    }
}

/// Equally tall matrices keep their order.
pub proof fn lemma_equal_heights_keep_order(hs: Seq<int>)
    requires
        forall|i: int| 0 <= i < hs.len() ==> #[trigger] hs[i] == hs[0],
    ensures
        tallest_first(hs) == in_order(hs.len()),
{
    let o = tallest_first(hs);
    lemma_order(hs);
    assert forall|i: int, j: int| 0 <= i < j < o.len() implies #[trigger] o[i] < #[trigger] o[j] by {
        assert(o.contains(o[i]));
        assert(o.contains(o[j]));
        assert(hs[o[i]] == hs[0] && hs[o[j]] == hs[0]);
    }
    lemma_ascending(o, hs.len());
}

/// The joint quotient statements: one for each query, on its chunk rows one after the other.
pub open spec fn states_quotients(
    v: Seq<MmcsPathStatement>,
    proof: StarkProofView,
    chal: AggFriChallenges,
    bundle: AggFriMmcsBundle,
) -> bool {
    let fri = proof.opening_proof.fri_proof;
    &&& v.len() == fri.query_proofs@.len()
    &&& forall|q: int|
        0 <= q < v.len() ==> {
            let opening = fri.query_proofs@[q].input_proof.input_openings@[1];
            let rows = opening.opened_values@;
            states(
                #[trigger] v[q],
                end_to_end(Seq::new(rows.len(), |i: int| vals(rows[i]@)), in_order(rows.len())),
                bundle.val@[q].quot_siblings@,
                quotient_place(proof, chal, q),
                proof.quotient_commitment@[0]@,
            )
        }
}

/// The first-layer statements: one for each query, on its one pair.
pub open spec fn states_first_layer(
    v: Seq<MmcsPathStatement>,
    proof: StarkProofView,
    chal: AggFriChallenges,
    bundle: AggFriMmcsBundle,
) -> bool {
    &&& v.len() == proof.opening_proof.fri_proof.query_proofs@.len()
    &&& forall|q: int|
        0 <= q < v.len() ==> states(
            #[trigger] v[q],
            first_layer_opening(proof, chal, q).rows[0],
            bundle.chal@[q].first_layer.siblings@,
            chal.query_indices@[q] as int / 2,
            proof.opening_proof.first_layer_commitment@[0]@,
        )
}

/// A statement on round `k` of query `q`.
pub open spec fn states_round(
    s: MmcsPathStatement,
    proof: StarkProofView,
    chal: AggFriChallenges,
    q: int,
    k: int,
) -> bool {
    let fri = proof.opening_proof.fri_proof;
    let rounds = fri.query_proofs@[q].commit_phase_openings@;
    states(
        s,
        limbs(entering_pair(proof, chal, q, k)),
        rounds[k].opening_proof@,
        chal.query_indices@[q] as int / (exp2((k + 1) as nat) as int) / 2,
        fri.commit_phase_commits@[k]@[0]@,
    )
}

/// The commit-phase statements, by depth: every round of every query is among those of its
/// depth, and nothing else is.
pub open spec fn states_rounds(
    entries: Seq<(usize, Vec<MmcsPathStatement>)>,
    proof: StarkProofView,
    chal: AggFriChallenges,
) -> bool {
    let proofs = proof.opening_proof.fri_proof.query_proofs@;
    &&& forall|i: int, j: int|
        0 <= i < j < entries.len() ==> (#[trigger] entries[i]).0 < (#[trigger] entries[j]).0
    &&& forall|q: int, k: int|
        0 <= q < proofs.len() && 0 <= k < proofs[q].commit_phase_openings@.len()
            ==> #[trigger] round_listed(entries, proof, chal, q, k)
    &&& forall|e: int, i: int|
        0 <= e < entries.len() && 0 <= i < entries[e].1@.len() ==> #[trigger] lists_round(
            entries,
            proof,
            chal,
            e,
            i,
        )
}

/// Round `k` of query `q` is among the statements of its depth.
pub open spec fn round_listed(
    entries: Seq<(usize, Vec<MmcsPathStatement>)>,
    proof: StarkProofView,
    chal: AggFriChallenges,
    q: int,
    k: int,
) -> bool {
    let rounds = proof.opening_proof.fri_proof.query_proofs@[q].commit_phase_openings@;
    exists|e: int, i: int|
        {
            &&& 0 <= e < entries.len()
            &&& 0 <= i < entries[e].1@.len()
            &&& entries[e].0 == rounds[k].opening_proof@.len()
            &&& states_round(#[trigger] entries[e].1@[i], proof, chal, q, k)
        }
}

/// Statement `i` of entry `e` is on some round of some query, and of the entry's depth.
pub open spec fn lists_round(
    entries: Seq<(usize, Vec<MmcsPathStatement>)>,
    proof: StarkProofView,
    chal: AggFriChallenges,
    e: int,
    i: int,
) -> bool {
    let proofs = proof.opening_proof.fri_proof.query_proofs@;
    &&& entries[e].1@[i].siblings@.len() == entries[e].0
    &&& exists|q: int, k: int|
        {
            &&& 0 <= q < proofs.len()
            &&& 0 <= k < proofs[q].commit_phase_openings@.len()
            &&& #[trigger] states_round(entries[e].1@[i], proof, chal, q, k)
        }
}

/// The claim of a round.
proof fn lemma_round_claim(proof: StarkProofView, chal: AggFriChallenges, q: int, k: int)
    requires
        chal.extra_query_index_bits == 1,
        0 <= q < chal.query_indices@.len(),
        0 <= k < proof.opening_proof.fri_proof.query_proofs@[q].commit_phase_openings@.len(),
    ensures
        ({
            let fri = proof.opening_proof.fri_proof;
            let c = round_claim(
                ri_chain(query_of(proof, chal, q)),
                fri.commit_phase_commits@,
                k,
            );
            let rounds = fri.query_proofs@[q].commit_phase_openings@;
            &&& c.row == limbs(entering_pair(proof, chal, q, k))
            &&& c.siblings == rounds[k].opening_proof@
            &&& c.index == chal.query_indices@[q] as int / (exp2((k + 1) as nat) as int) / 2
            &&& c.root == fri.commit_phase_commits@[k]@[0]@
        }),
{
    let c = ri_chain(query_of(proof, chal, q));
    lemma_chain_position(c, k as nat);
    lemma_limbs(entering_pair(proof, chal, q, k));
}

/// Where the claims of a query's rounds stand among all.
proof fn lemma_claims_listed(
    proof: StarkProofView,
    chal: AggFriChallenges,
    n: nat,
    q: int,
    k: int,
) -> (at: int)
    requires
        0 <= q < n,
        0 <= k < proof.opening_proof.fri_proof.query_proofs@[q].commit_phase_openings@.len(),
    ensures
        0 <= at < commit_claims(proof, chal, n).len(),
        commit_claims(proof, chal, n)[at] == round_claim(
            ri_chain(query_of(proof, chal, q)),
            proof.opening_proof.fri_proof.commit_phase_commits@,
            k,
        ),
    decreases n,
{
    let m = (n - 1) as nat;
    let before = commit_claims(proof, chal, m);
    let own = query_commit_claims(query_of(proof, chal, n - 1));
    assert(commit_claims(proof, chal, n) == before + own);
    if q == n - 1 {
        assert((before + own)[before.len() + k] == own[k]);
        before.len() + k
    } else {
        let at = lemma_claims_listed(proof, chal, m, q, k);
        assert((before + own)[at] == before[at]);
        at
    }
}

/// Every claim is that of some round of some query.
proof fn lemma_claim_source(
    proof: StarkProofView,
    chal: AggFriChallenges,
    n: nat,
    at: int,
) -> (r: (int, int))
    requires
        0 <= at < commit_claims(proof, chal, n).len(),
    ensures
        0 <= r.0 < n,
        0 <= r.1 < proof.opening_proof.fri_proof.query_proofs@[r.0].commit_phase_openings@.len(),
        commit_claims(proof, chal, n)[at] == round_claim(
            ri_chain(query_of(proof, chal, r.0)),
            proof.opening_proof.fri_proof.commit_phase_commits@,
            r.1,
        ),
    decreases n,
{
    let m = (n - 1) as nat;
    let before = commit_claims(proof, chal, m);
    let own = query_commit_claims(query_of(proof, chal, n - 1));
    assert(commit_claims(proof, chal, n) == before + own);
    if at < before.len() {
        assert((before + own)[at] == before[at]);
        lemma_claim_source(proof, chal, m, at)
    } else {
        assert((before + own)[at] == own[at - before.len()]);
        (n - 1, at - before.len())
    }
}

/// A claim is kept among those of its depth, and what is kept is among the claims.
proof fn lemma_depth_contains(claims: Seq<PathClaim>, d: int)
    ensures
        forall|x: PathClaim| #[trigger]
            of_depth(claims, d).contains(x) <==> claims.contains(x) && x.siblings.len() == d,
    decreases claims.len(),
{
    reveal(Seq::filter);
    let f = of_depth(claims, d);
    if claims.len() > 0 {
        let rest = claims.drop_last();
        let g = of_depth(rest, d);
        lemma_depth_contains(rest, d);
        assert forall|x: PathClaim| #[trigger] f.contains(x) <==> claims.contains(x)
            && x.siblings.len() == d by {
            if f.contains(x) {
                let i = choose|i: int| 0 <= i < f.len() && f[i] == x;
                if i < g.len() {
                    assert(g[i] == x);
                    assert(g.contains(x));
                    let j = choose|j: int| 0 <= j < rest.len() && rest[j] == x;
                    assert(claims[j] == x);
                } else {
                    assert(claims[claims.len() - 1] == x);
                }
            }
            if claims.contains(x) && x.siblings.len() == d {
                let i = choose|i: int| 0 <= i < claims.len() && claims[i] == x;
                if i < rest.len() {
                    assert(rest[i] == x);
                    assert(rest.contains(x));
                    assert(g.contains(x));
                    let j = choose|j: int| 0 <= j < g.len() && g[j] == x;
                    assert(f[j] == x);
                } else {
                    assert(f[f.len() - 1] == x);
                }
            }
        }
    }
}

/// A round is listed.
proof fn lemma_round_listed(
    entries: Seq<(usize, Vec<MmcsPathStatement>)>,
    proof: StarkProofView,
    chal: AggFriChallenges,
    n: nat,
    q: int,
    k: int,
)
    requires
        chal.extra_query_index_bits == 1,
        n == proof.opening_proof.fri_proof.query_proofs@.len(),
        n == chal.query_indices@.len(),
        is_by_depth(entries, commit_claims(proof, chal, n)),
        0 <= q < n,
        0 <= k < proof.opening_proof.fri_proof.query_proofs@[q].commit_phase_openings@.len(),
    ensures
        round_listed(entries, proof, chal, q, k),
{
    let claims = commit_claims(proof, chal, n);
    let at = lemma_claims_listed(proof, chal, n, q, k);
    lemma_round_claim(proof, chal, q, k);
    let x = claims[at];
    let d = x.siblings.len() as int;
    assert(has_depth(entries, d));
    let e = choose|e: int| 0 <= e < entries.len() && (#[trigger] entries[e]).0 == d;
    lemma_depth_contains(claims, d);
    assert(claims.contains(x));
    let kept = of_depth(claims, d);
    assert(kept.contains(x));
    let i = choose|i: int| 0 <= i < kept.len() && kept[i] == x;
    assert(claims_of(entries[e].1@) == kept);
    lemma_states_all(entries[e].1@, kept);
    assert(states_round(entries[e].1@[i], proof, chal, q, k));
}

/// A statement is on a round.
proof fn lemma_lists_round(
    entries: Seq<(usize, Vec<MmcsPathStatement>)>,
    proof: StarkProofView,
    chal: AggFriChallenges,
    n: nat,
    e: int,
    i: int,
)
    requires
        chal.extra_query_index_bits == 1,
        n == proof.opening_proof.fri_proof.query_proofs@.len(),
        n == chal.query_indices@.len(),
        is_by_depth(entries, commit_claims(proof, chal, n)),
        0 <= e < entries.len(),
        0 <= i < entries[e].1@.len(),
    ensures
        lists_round(entries, proof, chal, e, i),
{
    let claims = commit_claims(proof, chal, n);
    let d = entries[e].0 as int;
    let kept = of_depth(claims, d);
    assert(claims_of(entries[e].1@) == kept);
    lemma_states_all(entries[e].1@, kept);
    assert(entries[e].1@.len() == kept.len());
    lemma_depth_contains(claims, d);
    assert(kept.contains(kept[i]));
    let at = choose|at: int| 0 <= at < claims.len() && claims[at] == kept[i];
    let (q, k) = lemma_claim_source(proof, chal, n, at);
    lemma_round_claim(proof, chal, q, k);
    assert(states_round(entries[e].1@[i], proof, chal, q, k));
}

/// Statements of a proof's openings: joint quotient rows, first-layer pairs and commit-phase
/// pairs, each query's own, with the positions drawn for it and the commitments of the proof.
pub proof fn lemma_openings_stated(
    s: LeafMmcsGroupStatements,
    proof: StarkProofView,
    chal: AggFriChallenges,
    width: usize,
    bundle: AggFriMmcsBundle,
)
    requires
        are_statements(s, proof, chal, width, bundle),
        val_shape_report(proof, chal) is None,
        chal.extra_query_index_bits == 1,
        chal.query_indices@.len() == proof.opening_proof.fri_proof.query_proofs@.len(),
        bundle.val@.len() == proof.opening_proof.fri_proof.query_proofs@.len(),
        bundle.chal@.len() == proof.opening_proof.fri_proof.query_proofs@.len(),
    ensures
        s.val_quot_batch matches Some(v) ==> states_quotients(v@, proof, chal, bundle),
        s.chal_first_layer matches Some(v) ==> states_first_layer(v@, proof, chal, bundle),
        states_rounds(s.chal_commit@, proof, chal),
{
    let fri = proof.opening_proof.fri_proof;
    let n = fri.query_proofs@.len();
    if let Some(v) = s.val_quot_batch {
        let claims = Seq::new(
            n,
            |q: int| quot_batch_claim(query_of(proof, chal, q), bundle.val@[q]),
        );
        assert(claims_of(v@) == claims);
        lemma_states_all(v@, claims);
        assert(v@.len() == claims.len());
        assert forall|q: int| 0 <= q < v@.len() implies {
            let opening = fri.query_proofs@[q].input_proof.input_openings@[1];
            let rows = opening.opened_values@;
            states(
                #[trigger] v@[q],
                end_to_end(Seq::new(rows.len(), |i: int| vals(rows[i]@)), in_order(rows.len())),
                bundle.val@[q].quot_siblings@,
                quotient_place(proof, chal, q),
                proof.quotient_commitment@[0]@,
            )
        } by {
            let ri = query_of(proof, chal, q);
            let rows = fri.query_proofs@[q].input_proof.input_openings@[1].opened_values@;
            let hs = heights_of(quotient_dims(ri));
            lemma_equal_heights_keep_order(hs);
            lemma_joint_row(quot_rows(ri), in_order(hs.len()));
            lemma_places(proof, chal, q);
            assert(quot_rows(ri) =~= Seq::new(rows.len(), |i: int| vals(rows[i]@)));
        }
    }
    if let Some(v) = s.chal_first_layer {
        let claims = Seq::new(
            n,
            |q: int| first_layer_claim(query_of(proof, chal, q), bundle.chal@[q]),
        );
        assert(claims_of(v@) == claims);
        lemma_states_all(v@, claims);
        assert(v@.len() == claims.len());
        assert forall|q: int| 0 <= q < v@.len() implies states(
            #[trigger] v@[q],
            first_layer_opening(proof, chal, q).rows[0],
            bundle.chal@[q].first_layer.siblings@,
            chal.query_indices@[q] as int / 2,
            proof.opening_proof.first_layer_commitment@[0]@,
        ) by {
            let ri = query_of(proof, chal, q);
            let f = |q: int| first_layer_event(query_of(proof, chal, q), width, bundle.chal@[q]);
            lemma_first_some_none(n, f, q);
            assert(first_layer_event(ri, width, bundle.chal@[q]) is None);
            lemma_first_layer_opening(proof, chal, width, q);
            let b = first_layer_batch(ri, bundle.chal@[q].first_layer.siblings@);
            let o = first_layer_opening(proof, chal, q);
            assert(b.rows == o.rows);
            lemma_equal_heights_keep_order(heights_of(b.dims));
            lemma_joint_row(b.rows, in_order(1));
            lemma_one_row(b.rows);
        }
    }
    assert forall|q: int, k: int|
        0 <= q < n && 0 <= k
            < fri.query_proofs@[q].commit_phase_openings@.len() implies #[trigger] round_listed(
        s.chal_commit@,
        proof,
        chal,
        q,
        k,
    ) by {
        lemma_round_listed(s.chal_commit@, proof, chal, n, q, k);
    }
    assert forall|e: int, i: int|
        0 <= e < s.chal_commit@.len() && 0 <= i
            < s.chal_commit@[e].1@.len() implies #[trigger] lists_round(
        s.chal_commit@,
        proof,
        chal,
        e,
        i,
    ) by {
        lemma_lists_round(s.chal_commit@, proof, chal, n, e, i);
    }
}

/// One row.
proof fn lemma_one_row(rows: Seq<Seq<int>>)
    ensures
        end_to_end(rows, in_order(1)) == rows[0],
{
    let g = in_order(1);
    assert(g.drop_first() =~= Seq::<int>::empty());
    assert(end_to_end(rows, g.drop_first()) =~= Seq::<int>::empty());
    assert(end_to_end(rows, g) =~= rows[0]);
}

} // verus!
