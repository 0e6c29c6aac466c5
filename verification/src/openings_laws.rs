//! Openings that are accepted are tied to the commitments of their proof, each one of them.
use vstd::prelude::*;

use crate::agg_constraints::AGG_WIDTH;
use crate::batch_path::Dimensions;
use crate::bits::{exp2, lemma_exp2_monotone, lemma_exp2_positive, lemma_shr_divides};
use crate::chal_mmcs::lemma_sum_heights;
use crate::checks::{fails_at, in_turn, lemma_first_some_none};
use crate::circle::lemma_exp2_30;
use crate::ext::{eadd, evals_of, ezero, Challenge, Ext};
use crate::field::Val;
use crate::fri_fold_bind::{next_state, ri_chain, round_pair, ChainInput, FoldChainError};
use crate::fri_fold_native::{fold_pair, x_fold_ok, x_twiddle_inv};
use crate::fri_fs_replay::{is_replay, AggFriChallenges};
use crate::fri_mmcs::{
    agg_openings_outcome, chal_verdict, commit_end_report, commit_outcome, commit_round,
    commit_shape_report, first_layer_verdict, one_matrix, openings_outcome,
    openings_shape_report, query_openings, rows_are_pairs,
    single_quotient_height, val_verdict, OpeningsError,
};
use crate::fri_ro::RoInput;
use crate::pcs_view::{BatchOpeningView, FriParamsView, StarkProofView};
use crate::val_mmcs::query_of;

verus! {

/// The check of base rows may return `v` on an opening of one matrix at a position.
pub open spec fn rows_verdict<
    V: Fn(&Vec<[u8; 32]>, &Vec<Dimensions>, usize, &Vec<Vec<Val>>, &Vec<[u8; 32]>) -> bool,
>(
    check: V,
    com: Vec<[u8; 32]>,
    width: int,
    height: int,
    index: int,
    opening: BatchOpeningView,
    v: bool,
) -> bool {
    exists|d: &Vec<Dimensions>, at: usize|
        {
            &&& #[trigger] call_ensures(
                check,
                (&com, d, at, &opening.opened_values, &opening.opening_proof),
                v,
            )
            &&& d@.len() == 1
            &&& d@[0].width == width
            &&& d@[0].height == height
            &&& at == index
        }
}

/// The check of extension rows may return `v` on pairs at a position.
pub open spec fn pairs_verdict<
    C: Fn(&Vec<[u8; 32]>, &Vec<Dimensions>, usize, &Vec<Vec<Challenge>>, &Vec<[u8; 32]>) -> bool,
>(
    check: C,
    com: Vec<[u8; 32]>,
    heights: Seq<int>,
    index: int,
    pairs: Seq<(Ext, Ext)>,
    path: Vec<[u8; 32]>,
    v: bool,
) -> bool {
    exists|d: &Vec<Dimensions>, at: usize, rows: &Vec<Vec<Challenge>>|
        {
            &&& #[trigger] call_ensures(check, (&com, d, at, rows, &path), v)
            &&& d@.len() == heights.len()
            &&& forall|i: int|
                0 <= i < heights.len() ==> (#[trigger] d@[i]).width == 2 && d@[i].height
                    == heights[i]
            &&& at == index
            &&& rows@.len() == pairs.len()
            &&& forall|i: int|
                0 <= i < pairs.len() ==> {
                    &&& (#[trigger] rows@[i])@.len() == 2
                    &&& rows@[i]@[0]@ == pairs[i].0
                    &&& rows@[i]@[1]@ == pairs[i].1
                }
        }
}

/// What the check of query `q`'s trace rows against the trace commitment may return: one matrix
/// of 66 columns, at the query's position in the trace codeword.
pub open spec fn trace_says<
    V: Fn(&Vec<[u8; 32]>, &Vec<Dimensions>, usize, &Vec<Vec<Val>>, &Vec<[u8; 32]>) -> bool,
>(check: V, proof: StarkProofView, chal: AggFriChallenges, q: int, v: bool) -> bool {
    let fri = proof.opening_proof.fri_proof;
    let above = fri.commit_phase_commits@.len() + 1 - proof.degree_bits;
    rows_verdict(
        check,
        proof.trace_commitment,
        66,
        exp2((proof.degree_bits + chal.log_blowup) as nat) as int,
        chal.query_indices@[q] as int / (exp2(above as nat) as int),
        fri.query_proofs@[q].input_proof.input_openings@[0],
        v,
    )
}

/// What the check of query `q`'s quotient rows against the quotient commitment may return: one
/// matrix of three columns, at the query's position in the quotient codeword, which is twice as
/// tall as the trace's.
pub open spec fn quotient_says<
    V: Fn(&Vec<[u8; 32]>, &Vec<Dimensions>, usize, &Vec<Vec<Val>>, &Vec<[u8; 32]>) -> bool,
>(check: V, proof: StarkProofView, chal: AggFriChallenges, q: int, v: bool) -> bool {
    let fri = proof.opening_proof.fri_proof;
    let above = fri.commit_phase_commits@.len() - proof.degree_bits;
    rows_verdict(
        check,
        proof.quotient_commitment,
        3,
        exp2((proof.degree_bits + 1 + chal.log_blowup) as nat) as int,
        chal.query_indices@[q] as int / (exp2(above as nat) as int),
        fri.query_proofs@[q].input_proof.input_openings@[1],
        v,
    )
}

/// A pair has `other` at the side that is not queried, and `own` at the side that is.
pub open spec fn sided(position: int, own: Ext, other: Ext) -> (Ext, Ext) {
    if position % 2 == 0 {
        (own, other)
    } else {
        (other, own)
    }
}

/// What the check of query `q`'s first-layer pairs against the first-layer commitment may return:
/// each reduced opening beside its given sibling.
pub open spec fn first_layer_says<
    C: Fn(&Vec<[u8; 32]>, &Vec<Dimensions>, usize, &Vec<Vec<Challenge>>, &Vec<[u8; 32]>) -> bool,
>(check: C, proof: StarkProofView, chal: AggFriChallenges, q: int, v: bool) -> bool {
    let pcs = proof.opening_proof;
    let ri = query_of(proof, chal, q);
    let input = pcs.fri_proof.query_proofs@[q].input_proof;
    let top = pcs.fri_proof.commit_phase_commits@.len() + 1 + chal.log_blowup;
    let n = ri.sums().len();
    pairs_verdict(
        check,
        pcs.first_layer_commitment,
        Seq::new(n, |k: int| exp2((ri.sums()[k].0 - 1) as nat) as int),
        chal.query_indices@[q] as int / 2,
        Seq::new(
            n,
            |k: int|
                sided(
                    chal.query_indices@[q] as int / (exp2((top - ri.sums()[k].0) as nat) as int),
                    ri.corrected(k),
                    input.first_layer_siblings@[k]@,
                ),
        ),
        input.first_layer_proof,
        v,
    )
}

/// The value that enters round `k` of query `q`: what the rounds before gave, and the folded
/// opening of that height.
pub open spec fn entering(proof: StarkProofView, chal: AggFriChallenges, q: int, k: int) -> Ext {
    let ri = query_of(proof, chal, q);
    let c = ri_chain(ri);
    let s = c.state(k as nat);
    let h = c.rounds.len() + chal.log_blowup - k;
    if s.joined < c.ros.len() && c.ros[s.joined].0 == h {
        eadd(s.eval, c.ros[s.joined].1)
    } else {
        s.eval
    }
}

/// The pair folded in round `k` of query `q`.
pub open spec fn entering_pair(
    proof: StarkProofView,
    chal: AggFriChallenges,
    q: int,
    k: int,
) -> (Ext, Ext) {
    let rounds = proof.opening_proof.fri_proof.query_proofs@[q].commit_phase_openings@;
    sided(
        chal.query_indices@[q] as int / (exp2((k + 1) as nat) as int),
        entering(proof, chal, q, k),
        rounds[k].sibling_values@[0]@,
    )
}

/// What the check of round `k` of query `q` against the commitment of that round may return.
pub open spec fn round_says<
    C: Fn(&Vec<[u8; 32]>, &Vec<Dimensions>, usize, &Vec<Vec<Challenge>>, &Vec<[u8; 32]>) -> bool,
>(check: C, proof: StarkProofView, chal: AggFriChallenges, q: int, k: int, v: bool) -> bool {
    let fri = proof.opening_proof.fri_proof;
    let rounds = fri.query_proofs@[q].commit_phase_openings@;
    let h = rounds.len() + chal.log_blowup - k;
    pairs_verdict(
        check,
        fri.commit_phase_commits@[k],
        seq![exp2((h - 1) as nat) as int],
        chal.query_indices@[q] as int / (exp2((k + 1) as nat) as int) / 2,
        seq![entering_pair(proof, chal, q, k)],
        rounds[k].opening_proof,
        v,
    )
}

/// The pair of round `k` of query `q` belongs to the commitment of that round, and what the round
/// gives is the fold of that pair with the round's challenge.
pub open spec fn round_tied<
    C: Fn(&Vec<[u8; 32]>, &Vec<Dimensions>, usize, &Vec<Vec<Challenge>>, &Vec<[u8; 32]>) -> bool,
>(check: C, proof: StarkProofView, chal: AggFriChallenges, q: int, k: int) -> bool {
    let rounds = proof.opening_proof.fri_proof.query_proofs@[q].commit_phase_openings@;
    let c = ri_chain(query_of(proof, chal, q));
    let h = rounds.len() + chal.log_blowup - k;
    let at = chal.query_indices@[q] as int / (exp2((k + 1) as nat) as int);
    let pair = entering_pair(proof, chal, q, k);
    &&& rounds[k].sibling_values@.len() == 1
    &&& rounds[k].log_arity == 1
    &&& round_says(check, proof, chal, q, k, true)
    &&& c.state((k + 1) as nat).eval == fold_pair(
        x_twiddle_inv(at / 2, (h - 1) as nat),
        chal.betas@[k]@,
        pair.0,
        pair.1,
    )
}

/// The rounds of query `q` start from nothing, take in every folded opening and end in the final
/// polynomial.
pub open spec fn chain_ends(proof: StarkProofView, chal: AggFriChallenges, q: int) -> bool {
    let fri = proof.opening_proof.fri_proof;
    let rounds = fri.query_proofs@[q].commit_phase_openings@;
    let c = ri_chain(query_of(proof, chal, q));
    &&& rounds.len() == fri.commit_phase_commits@.len()
    &&& rounds.len() == chal.betas@.len()
    &&& rounds.len() <= 4
    &&& c.state(0).eval == ezero()
    &&& c.state(0).joined == 0
    &&& c.state(rounds.len()).eval == fri.final_poly@
    &&& c.state(rounds.len()).joined >= query_of(proof, chal, q).sums().len()
}

/// Every opening of query `q` is tied to its commitment.
pub open spec fn query_tied<
    V: Fn(&Vec<[u8; 32]>, &Vec<Dimensions>, usize, &Vec<Vec<Val>>, &Vec<[u8; 32]>) -> bool,
    C: Fn(&Vec<[u8; 32]>, &Vec<Dimensions>, usize, &Vec<Vec<Challenge>>, &Vec<[u8; 32]>) -> bool,
>(val_check: V, chal_check: C, proof: StarkProofView, chal: AggFriChallenges, q: int) -> bool {
    let fri = proof.opening_proof.fri_proof;
    &&& fri.query_proofs@[q].input_proof.input_openings@.len() == 2
    &&& trace_says(val_check, proof, chal, q, true)
    &&& quotient_says(val_check, proof, chal, q, true)
    &&& query_of(proof, chal, q).report(AGG_WIDTH) is None
    &&& first_layer_says(chal_check, proof, chal, q, true)
    &&& forall|k: int|
        0 <= k < fri.query_proofs@[q].commit_phase_openings@.len() ==> #[trigger] round_tied(
            chal_check,
            proof,
            chal,
            q,
            k,
        )
    &&& chain_ends(proof, chal, q)
}

/// Accepted openings: the openings of every query are tied to the commitments of the proof, at
/// the positions drawn for them.
pub proof fn lemma_openings_tied<
    V: Fn(&Vec<[u8; 32]>, &Vec<Dimensions>, usize, &Vec<Vec<Val>>, &Vec<[u8; 32]>) -> bool,
    C: Fn(&Vec<[u8; 32]>, &Vec<Dimensions>, usize, &Vec<Vec<Challenge>>, &Vec<[u8; 32]>) -> bool,
>(val_check: V, chal_check: C, proof: StarkProofView, params: FriParamsView)
    requires
        agg_openings_outcome(val_check, chal_check, proof, params, Ok(())),
    ensures
        exists|chal: AggFriChallenges|
            {
                &&& #[trigger] is_replay(chal, proof, params)
                &&& chal.query_indices@.len() == proof.opening_proof.fri_proof.query_proofs@.len()
                &&& forall|q: int|
                    0 <= q < proof.opening_proof.fri_proof.query_proofs@.len()
                        ==> #[trigger] query_tied(val_check, chal_check, proof, chal, q)
            },
{
    let r = Ok::<(), OpeningsError>(());
    let chal = choose|chal: AggFriChallenges| #[trigger]
        is_replay(chal, proof, params) && openings_outcome(
            val_check,
            chal_check,
            proof,
            chal,
            r,
        );
    lemma_openings_tied_with(val_check, chal_check, proof, chal);
}

/// Accepted openings, given the challenges.
pub proof fn lemma_openings_tied_with<
    V: Fn(&Vec<[u8; 32]>, &Vec<Dimensions>, usize, &Vec<Vec<Val>>, &Vec<[u8; 32]>) -> bool,
    C: Fn(&Vec<[u8; 32]>, &Vec<Dimensions>, usize, &Vec<Vec<Challenge>>, &Vec<[u8; 32]>) -> bool,
>(val_check: V, chal_check: C, proof: StarkProofView, chal: AggFriChallenges)
    requires
        openings_outcome(val_check, chal_check, proof, chal, Ok(())),
        chal.extra_query_index_bits == 1,
    ensures
        chal.query_indices@.len() == proof.opening_proof.fri_proof.query_proofs@.len(),
        forall|q: int|
            0 <= q < proof.opening_proof.fri_proof.query_proofs@.len() ==> #[trigger] query_tied(
                val_check,
                chal_check,
                proof,
                chal,
                q,
            ),
{
    let step = |q: int, x: Result<(), OpeningsError>|
        query_openings(val_check, chal_check, query_of(proof, chal, q), x);
    assert(openings_shape_report(proof, chal) is None);
    assert(in_turn(chal.query_indices@.len(), step, Ok(())));
    assert forall|q: int|
        0 <= q < proof.opening_proof.fri_proof.query_proofs@.len() implies #[trigger] query_tied(
        val_check,
        chal_check,
        proof,
        chal,
        q,
    ) by {
        assert(step(q, Ok(())));
        lemma_query_tied(val_check, chal_check, proof, chal, q);
    }
}

/// The height of a single matrix.
proof fn lemma_one_matrix(width: usize, h: int)
    requires
        0 <= h <= 30,
    ensures
        one_matrix(width, h).len() == 1,
        one_matrix(width, h)[0].width == width,
        one_matrix(width, h)[0].height == exp2(h as nat),
{
    lemma_exp2_monotone(h as nat, 30);
    lemma_exp2_30();
}

/// The position of a query in the codeword of a height.
proof fn lemma_position(ri: RoInput, h: int)
    requires
        h <= ri.log_max_height(),
        0 <= ri.query < ri.chal.query_indices@.len(),
    ensures
        ri.index_at(h) == ri.chal.query_indices@[ri.query] as int / (exp2(
            (ri.log_max_height() - h) as nat,
        ) as int),
        0 <= ri.index_at(h) <= usize::MAX,
{
    let k = (ri.log_max_height() - h) as nat;
    lemma_shr_divides(ri.query_index(), k);
    crate::bits::lemma_shr_bounds(ri.query_index(), k);
}

/// A verdict on one matrix of base rows.
proof fn lemma_rows_verdict<
    V: Fn(&Vec<[u8; 32]>, &Vec<Dimensions>, usize, &Vec<Vec<Val>>, &Vec<[u8; 32]>) -> bool,
>(
    check: V,
    com: Vec<[u8; 32]>,
    width: usize,
    h: int,
    index: int,
    opening: BatchOpeningView,
    v: bool,
)
    requires
        val_verdict(check, com, one_matrix(width, h), index, opening, v),
        0 <= h <= 30,
        0 <= index <= usize::MAX,
    ensures
        rows_verdict(check, com, width as int, exp2(h as nat) as int, index, opening, v),
{
    lemma_one_matrix(width, h);
    let dims = one_matrix(width, h);
    let d = choose|d: Vec<Dimensions>| #[trigger]
        d@ == dims && call_ensures(
            check,
            (&com, &d, index as usize, &opening.opened_values, &opening.opening_proof),
            v,
        );
    let dr = &d;
    let at = index as usize;
    assert(call_ensures(
        check,
        (&com, dr, at, &opening.opened_values, &opening.opening_proof),
        v,
    ));
}

/// A verdict on pairs.
proof fn lemma_pairs_verdict<
    C: Fn(&Vec<[u8; 32]>, &Vec<Dimensions>, usize, &Vec<Vec<Challenge>>, &Vec<[u8; 32]>) -> bool,
>(
    check: C,
    com: Vec<[u8; 32]>,
    dims: Seq<Dimensions>,
    heights: Seq<int>,
    index: int,
    pairs: Seq<(Ext, Ext)>,
    path: Vec<[u8; 32]>,
    v: bool,
)
    requires
        chal_verdict(check, com, dims, index, pairs, path, v),
        dims.len() == heights.len(),
        forall|i: int|
            0 <= i < dims.len() ==> (#[trigger] dims[i]).width == 2 && dims[i].height
                == heights[i],
        0 <= index <= usize::MAX,
    ensures
        pairs_verdict(check, com, heights, index, pairs, path, v),
{
    let (d, rows) = choose|d: Vec<Dimensions>, rows: Vec<Vec<Challenge>>| #[trigger]
        d@ == dims && #[trigger] rows_are_pairs(rows@, pairs) && call_ensures(
            check,
            (&com, &d, index as usize, &rows, &path),
            v,
        );
    assert forall|i: int| 0 <= i < pairs.len() implies {
        &&& (#[trigger] rows@[i])@.len() == 2
        &&& rows@[i]@[0]@ == pairs[i].0
        &&& rows@[i]@[1]@ == pairs[i].1
    } by {
        let e = evals_of(rows@[i]@);
        assert(e == seq![pairs[i].0, pairs[i].1]);
        assert(e.len() == 2 && e[0] == pairs[i].0 && e[1] == pairs[i].1);
    }
    let dr = &d;
    let rr = &rows;
    let at = index as usize;
    assert(call_ensures(check, (&com, dr, at, rr, &path), v));
}

/// Where a chain stands at the start of a round.
pub proof fn lemma_chain_position(c: ChainInput, k: nat)
    requires
        c.query_index >= 0,
    ensures
        c.state(k).index == c.query_index / (exp2(c.extra_bits + k) as int),
        c.state(k).log_height == c.rounds.len() + c.log_blowup - k,
        c.state(k).index >= 0,
    decreases k,
{
    if k == 0 {
        lemma_shr_divides(c.query_index, c.extra_bits);
        crate::bits::lemma_shr_bounds(c.query_index, c.extra_bits);
    } else {
        let j = (k - 1) as nat;
        lemma_chain_position(c, j);
        let e = exp2(c.extra_bits + j) as int;
        lemma_exp2_positive(c.extra_bits + j);
        assert(exp2(c.extra_bits + k) == 2 * exp2((c.extra_bits + k - 1) as nat));
        vstd::arithmetic::div_mod::lemma_div_denominator(c.query_index, e, 2);
    }
}

/// The check of round `k` of a query.
proof fn lemma_round_says<
    C: Fn(&Vec<[u8; 32]>, &Vec<Dimensions>, usize, &Vec<Vec<Challenge>>, &Vec<[u8; 32]>) -> bool,
>(check: C, proof: StarkProofView, chal: AggFriChallenges, q: int, k: int, v: bool)
    requires
        chal.extra_query_index_bits == 1,
        0 <= q < chal.query_indices@.len(),
        0 <= k < proof.opening_proof.fri_proof.query_proofs@[q].commit_phase_openings@.len(),
        ({
            let c = ri_chain(query_of(proof, chal, q));
            let s = c.state(k as nat);
            &&& x_fold_ok(s.index / 2, s.log_height - 1)
            &&& chal_verdict(
                check,
                proof.opening_proof.fri_proof.commit_phase_commits@[k],
                one_matrix(2, s.log_height - 1),
                s.index / 2,
                seq![round_pair(s, c.ros, c.rounds[k].sibling_values@[0]@)],
                c.rounds[k].opening_proof,
                v,
            )
        }),
    ensures
        round_says(check, proof, chal, q, k, v),
{
    let c = ri_chain(query_of(proof, chal, q));
    let fri = proof.opening_proof.fri_proof;
    let rounds = fri.query_proofs@[q].commit_phase_openings@;
    let h = rounds.len() + chal.log_blowup - k;
    let at = chal.query_indices@[q] as int / (exp2((k + 1) as nat) as int);
    lemma_chain_position(c, k as nat);
    assert(c.state(k as nat).index == at && c.state(k as nat).log_height == h);
    lemma_one_matrix(2, h - 1);
    crate::bits::lemma_shr_bounds(chal.query_indices@[q] as int, (k + 1) as nat);
    lemma_shr_divides(chal.query_indices@[q] as int, (k + 1) as nat);
    lemma_pairs_verdict(
        check,
        fri.commit_phase_commits@[k],
        one_matrix(2, h - 1),
        seq![exp2((h - 1) as nat) as int],
        at / 2,
        seq![entering_pair(proof, chal, q, k)],
        rounds[k].opening_proof,
        v,
    );
}

/// Round `k` of a query.
proof fn lemma_round_tied<
    C: Fn(&Vec<[u8; 32]>, &Vec<Dimensions>, usize, &Vec<Vec<Challenge>>, &Vec<[u8; 32]>) -> bool,
>(check: C, proof: StarkProofView, chal: AggFriChallenges, q: int, k: int)
    requires
        chal.extra_query_index_bits == 1,
        0 <= q < chal.query_indices@.len(),
        0 <= k < proof.opening_proof.fri_proof.query_proofs@[q].commit_phase_openings@.len(),
        k < chal.betas@.len(),
        proof.opening_proof.fri_proof.query_proofs@[q].commit_phase_openings@[k].log_arity == 1,
        commit_round(
            check,
            q,
            ri_chain(query_of(proof, chal, q)),
            proof.opening_proof.fri_proof.commit_phase_commits@,
            k,
            Ok(()),
        ),
    ensures
        round_tied(check, proof, chal, q, k),
{
    let c = ri_chain(query_of(proof, chal, q));
    let s = c.state(k as nat);
    lemma_chain_position(c, k as nat);
    lemma_round_says(check, proof, chal, q, k, true);
    assert(c.betas[k] == chal.betas@[k]@);
    assert(c.state((k + 1) as nat) == next_state(
        s,
        c.ros,
        c.betas[k],
        c.rounds[k].sibling_values@[0]@,
    ));
}

/// The checks of a query's trace and quotient rows.
proof fn lemma_rows_say<
    V: Fn(&Vec<[u8; 32]>, &Vec<Dimensions>, usize, &Vec<Vec<Val>>, &Vec<[u8; 32]>) -> bool,
>(check: V, proof: StarkProofView, chal: AggFriChallenges, q: int, v: bool)
    requires
        openings_shape_report(proof, chal) is None,
        0 <= q < chal.query_indices@.len(),
    ensures
        ({
            let ri = query_of(proof, chal, q);
            val_verdict(
                check,
                proof.trace_commitment,
                one_matrix(AGG_WIDTH, ri.trace_height()),
                ri.index_at(ri.trace_height()),
                ri.input().input_openings@[0],
                v,
            )
        }) ==> trace_says(check, proof, chal, q, v),
        ({
            let ri = query_of(proof, chal, q);
            val_verdict(
                check,
                proof.quotient_commitment,
                one_matrix(3, single_quotient_height(ri)),
                ri.index_at(single_quotient_height(ri)),
                ri.input().input_openings@[1],
                v,
            )
        }) ==> quotient_says(check, proof, chal, q, v),
{
    let ri = query_of(proof, chal, q);
    let th = ri.trace_height();
    let qh = single_quotient_height(ri);
    let openings = ri.input().input_openings@;
    assert(single_quotient_height(query_of(proof, chal, 0)) == qh);
    assert(query_of(proof, chal, 0).log_max_height() == ri.log_max_height());
    lemma_position(ri, th);
    lemma_position(ri, qh);
    if val_verdict(
        check,
        proof.trace_commitment,
        one_matrix(AGG_WIDTH, th),
        ri.index_at(th),
        openings[0],
        v,
    ) {
        lemma_rows_verdict(
            check,
            proof.trace_commitment,
            AGG_WIDTH,
            th,
            ri.index_at(th),
            openings[0],
            v,
        );
    }
    if val_verdict(
        check,
        proof.quotient_commitment,
        one_matrix(3, qh),
        ri.index_at(qh),
        openings[1],
        v,
    ) {
        lemma_rows_verdict(
            check,
            proof.quotient_commitment,
            3,
            qh,
            ri.index_at(qh),
            openings[1],
            v,
        );
    }
}

/// The openings of one query.
proof fn lemma_query_tied<
    V: Fn(&Vec<[u8; 32]>, &Vec<Dimensions>, usize, &Vec<Vec<Val>>, &Vec<[u8; 32]>) -> bool,
    C: Fn(&Vec<[u8; 32]>, &Vec<Dimensions>, usize, &Vec<Vec<Challenge>>, &Vec<[u8; 32]>) -> bool,
>(val_check: V, chal_check: C, proof: StarkProofView, chal: AggFriChallenges, q: int)
    requires
        openings_shape_report(proof, chal) is None,
        chal.extra_query_index_bits == 1,
        0 <= q < chal.query_indices@.len(),
        query_openings(val_check, chal_check, query_of(proof, chal, q), Ok(())),
    ensures
        query_tied(val_check, chal_check, proof, chal, q),
{
    let ri = query_of(proof, chal, q);
    let fri = proof.opening_proof.fri_proof;
    let r = Ok::<(), OpeningsError>(());
    lemma_rows_say(val_check, proof, chal, q, true);
    assert(ri.report(AGG_WIDTH) is None);
    assert(first_layer_verdict(chal_check, ri, true));
    lemma_first_layer_says(chal_check, proof, chal, q, true);
    let c = ri_chain(ri);
    assert(commit_outcome(chal_check, q, c, fri.commit_phase_commits@, r));
    let step = |k: int, y: Result<(), OpeningsError>|
        commit_round(chal_check, q, c, fri.commit_phase_commits@, k, y);
    assert(in_turn(c.rounds.len(), step, Ok(())));
    assert forall|k: int| 0 <= k < c.rounds.len() implies #[trigger] round_tied(
        chal_check,
        proof,
        chal,
        q,
        k,
    ) by {
        assert(step(k, Ok(())));
        assert(c.rounds[k].log_arity == 1);
        lemma_round_tied(chal_check, proof, chal, q, k);
    }
}

/// The first layer of a query.
proof fn lemma_first_layer_says<
    C: Fn(&Vec<[u8; 32]>, &Vec<Dimensions>, usize, &Vec<Vec<Challenge>>, &Vec<[u8; 32]>) -> bool,
>(check: C, proof: StarkProofView, chal: AggFriChallenges, q: int, v: bool)
    requires
        0 <= q < chal.query_indices@.len(),
        query_of(proof, chal, q).report(AGG_WIDTH) is None,
        first_layer_verdict(check, query_of(proof, chal, q), v),
    ensures
        first_layer_says(check, proof, chal, q, v),
{
    let ri = query_of(proof, chal, q);
    let pcs = proof.opening_proof;
    let n = ri.sums().len();
    let input = ri.input();
    let top = pcs.fri_proof.commit_phase_commits@.len() + 1 + chal.log_blowup;
    lemma_sum_heights(ri, AGG_WIDTH);
    let dims = Seq::new(
        n,
        |k: int| Dimensions { width: 2, height: exp2((ri.sums()[k].0 - 1) as nat) as usize },
    );
    let heights = Seq::new(n, |k: int| exp2((ri.sums()[k].0 - 1) as nat) as int);
    let pairs = Seq::new(n, |k: int| ri.pair(k));
    let want = Seq::new(
        n,
        |k: int|
            sided(
                chal.query_indices@[q] as int / (exp2((top - ri.sums()[k].0) as nat) as int),
                ri.corrected(k),
                input.first_layer_siblings@[k]@,
            ),
    );
    assert forall|k: int| 0 <= k < n implies (#[trigger] dims[k]).width == 2 && dims[k].height
        == heights[k] by {
        lemma_exp2_monotone((ri.sums()[k].0 - 1) as nat, 30);
        lemma_exp2_30();
    }
    let chunk = |i: int| ri.chunk_report(i);
    lemma_first_some_none(ri.chunks() as nat, chunk, 0);
    assert(chunk(0) is None);
    assert forall|k: int| 0 <= k < n implies #[trigger] pairs[k] == want[k] by {
        lemma_position(ri, ri.sums()[k].0);
    }
    assert(pairs =~= want);
    lemma_pairs_verdict(
        check,
        pcs.first_layer_commitment,
        dims,
        heights,
        ri.query_index() / 2,
        pairs,
        input.first_layer_proof,
        v,
    );
}

/// What a refusal says: each error names an opening that its check may have refused, or a shape
/// that the proof does not have.
pub open spec fn refusal_holds<
    V: Fn(&Vec<[u8; 32]>, &Vec<Dimensions>, usize, &Vec<Vec<Val>>, &Vec<[u8; 32]>) -> bool,
    C: Fn(&Vec<[u8; 32]>, &Vec<Dimensions>, usize, &Vec<Vec<Challenge>>, &Vec<[u8; 32]>) -> bool,
>(
    val_check: V,
    chal_check: C,
    proof: StarkProofView,
    chal: AggFriChallenges,
    e: OpeningsError,
) -> bool {
    let fri = proof.opening_proof.fri_proof;
    let queries = fri.query_proofs@;
    let n = queries.len();
    match e {
        OpeningsError::Replay(_) => false,
        OpeningsError::Height => proof.degree_bits > fri.commit_phase_commits@.len()
            || proof.degree_bits + 1 + chal.log_blowup > 30,
        OpeningsError::QueryCount => n != chal.query_indices@.len(),
        OpeningsError::InputBatches(q) => q < n && queries[q as int].input_proof.input_openings@.len()
            != 2,
        OpeningsError::Trace(q) => q < n && trace_says(val_check, proof, chal, q as int, false),
        OpeningsError::Quotient(q) => q < n && quotient_says(
            val_check,
            proof,
            chal,
            q as int,
            false,
        ),
        OpeningsError::Openings(q, x) => q < n && query_of(proof, chal, q as int).report(AGG_WIDTH)
            == Some(x),
        OpeningsError::FirstLayer(q) => q < n && first_layer_says(
            chal_check,
            proof,
            chal,
            q as int,
            false,
        ),
        OpeningsError::RoundCount(q) => q < n && (queries[q as int].commit_phase_openings@.len()
            != chal.betas@.len() || queries[q as int].commit_phase_openings@.len()
            != fri.commit_phase_commits@.len()),
        OpeningsError::Commit(q, k) => q < n && k < queries[q as int].commit_phase_openings@.len()
            && round_says(chal_check, proof, chal, q as int, k as int, false),
        OpeningsError::Chain(q, x) => q < n && chain_breaks(proof, chal, q as int, x),
    }
}

/// The rounds of query `q` do not hold together.
pub open spec fn chain_breaks(
    proof: StarkProofView,
    chal: AggFriChallenges,
    q: int,
    x: FoldChainError,
) -> bool {
    let fri = proof.opening_proof.fri_proof;
    let rounds = fri.query_proofs@[q].commit_phase_openings@;
    let end = ri_chain(query_of(proof, chal, q)).state(rounds.len());
    match x {
        FoldChainError::RoundCount => false,
        FoldChainError::TooManyRounds(m) => m == rounds.len() && m > 4,
        FoldChainError::Arity => exists|k: int|
            0 <= k < rounds.len() && (#[trigger] rounds[k]).log_arity != 1,
        FoldChainError::SiblingCount(k) => k < rounds.len()
            && rounds[k as int].sibling_values@.len() != 1,
        FoldChainError::Height(k) => {
            let h = rounds.len() + chal.log_blowup - k;
            &&& k < rounds.len()
            &&& h < 1 || h > 29 || (h == 1 && chal.query_indices@[q] as int / (exp2(
                (k + 1) as nat,
            ) as int) / 2 != 0)
        },
        FoldChainError::FinalPoly => end.eval != fri.final_poly@,
        FoldChainError::UnusedOpenings => end.joined < query_of(proof, chal, q).sums().len(),
    }
}

/// Openings are refused for a reason: a check that may return false, or a shape.
pub proof fn lemma_openings_refused<
    V: Fn(&Vec<[u8; 32]>, &Vec<Dimensions>, usize, &Vec<Vec<Val>>, &Vec<[u8; 32]>) -> bool,
    C: Fn(&Vec<[u8; 32]>, &Vec<Dimensions>, usize, &Vec<Vec<Challenge>>, &Vec<[u8; 32]>) -> bool,
>(
    val_check: V,
    chal_check: C,
    proof: StarkProofView,
    chal: AggFriChallenges,
    e: OpeningsError,
)
    requires
        openings_outcome(val_check, chal_check, proof, chal, Err(e)),
        chal.extra_query_index_bits == 1,
        proof.opening_proof.fri_proof.query_proofs@.len() <= usize::MAX,
    ensures
        refusal_holds(val_check, chal_check, proof, chal, e),
{
    if openings_shape_report(proof, chal) is None {
        let step = |q: int, x: Result<(), OpeningsError>|
            query_openings(val_check, chal_check, query_of(proof, chal, q), x);
        let q = choose|q: int|
            0 <= q < chal.query_indices@.len() && #[trigger] fails_at(step, q, e);
        assert(step(q, Err(e)));
        lemma_query_refused(val_check, chal_check, proof, chal, q, e);
    }
}

/// A query is refused for a reason.
proof fn lemma_query_refused<
    V: Fn(&Vec<[u8; 32]>, &Vec<Dimensions>, usize, &Vec<Vec<Val>>, &Vec<[u8; 32]>) -> bool,
    C: Fn(&Vec<[u8; 32]>, &Vec<Dimensions>, usize, &Vec<Vec<Challenge>>, &Vec<[u8; 32]>) -> bool,
>(
    val_check: V,
    chal_check: C,
    proof: StarkProofView,
    chal: AggFriChallenges,
    q: int,
    e: OpeningsError,
)
    requires
        openings_shape_report(proof, chal) is None,
        chal.extra_query_index_bits == 1,
        0 <= q < chal.query_indices@.len() <= usize::MAX,
        query_openings(val_check, chal_check, query_of(proof, chal, q), Err(e)),
    ensures
        refusal_holds(val_check, chal_check, proof, chal, e),
{
    let ri = query_of(proof, chal, q);
    lemma_rows_say(val_check, proof, chal, q, false);
    if ri.input().input_openings@.len() == 2 && e != OpeningsError::Trace(q as usize) && e
        != OpeningsError::Quotient(q as usize) && ri.report(AGG_WIDTH) is None {
        if e == OpeningsError::FirstLayer(q as usize) {
            if first_layer_verdict(chal_check, ri, false) {
                lemma_first_layer_says(chal_check, proof, chal, q, false);
            } else {
                lemma_commit_refused(chal_check, proof, chal, q, e);
            }
        } else {
            lemma_commit_refused(chal_check, proof, chal, q, e);
        }
    }
}

/// The rounds of query `q` are refused for a reason.
spec fn rounds_refused<
    C: Fn(&Vec<[u8; 32]>, &Vec<Dimensions>, usize, &Vec<Vec<Challenge>>, &Vec<[u8; 32]>) -> bool,
>(check: C, proof: StarkProofView, chal: AggFriChallenges, q: int, e: OpeningsError) -> bool {
    let fri = proof.opening_proof.fri_proof;
    let rounds = fri.query_proofs@[q].commit_phase_openings@;
    match e {
        OpeningsError::RoundCount(p) => p == q && (rounds.len() != chal.betas@.len()
            || rounds.len() != fri.commit_phase_commits@.len()),
        OpeningsError::Commit(p, k) => p == q && k < rounds.len() && round_says(
            check,
            proof,
            chal,
            q,
            k as int,
            false,
        ),
        OpeningsError::Chain(p, x) => p == q && chain_breaks(proof, chal, q, x),
        _ => false,
    }
}

/// Round `k` of a query is refused for a reason.
proof fn lemma_round_refused<
    C: Fn(&Vec<[u8; 32]>, &Vec<Dimensions>, usize, &Vec<Vec<Challenge>>, &Vec<[u8; 32]>) -> bool,
>(check: C, proof: StarkProofView, chal: AggFriChallenges, q: int, k: int, e: OpeningsError)
    requires
        chal.extra_query_index_bits == 1,
        0 <= q < chal.query_indices@.len() <= usize::MAX,
        0 <= k < proof.opening_proof.fri_proof.query_proofs@[q].commit_phase_openings@.len()
            <= usize::MAX,
        commit_round(
            check,
            q,
            ri_chain(query_of(proof, chal, q)),
            proof.opening_proof.fri_proof.commit_phase_commits@,
            k,
            Err(e),
        ),
    ensures
        rounds_refused(check, proof, chal, q, e),
{
    let c = ri_chain(query_of(proof, chal, q));
    lemma_chain_position(c, k as nat);
    let s = c.state(k as nat);
    if c.rounds[k].sibling_values@.len() == 1 && x_fold_ok(s.index / 2, s.log_height - 1) {
        assert(e == OpeningsError::Commit(q as usize, k as usize));
        lemma_round_says(check, proof, chal, q, k, false);
    }
}

proof fn lemma_commit_refused<
    C: Fn(&Vec<[u8; 32]>, &Vec<Dimensions>, usize, &Vec<Vec<Challenge>>, &Vec<[u8; 32]>) -> bool,
>(check: C, proof: StarkProofView, chal: AggFriChallenges, q: int, e: OpeningsError)
    requires
        chal.extra_query_index_bits == 1,
        0 <= q < chal.query_indices@.len() <= usize::MAX,
        q < proof.opening_proof.fri_proof.query_proofs@.len(),
        commit_outcome(
            check,
            q,
            ri_chain(query_of(proof, chal, q)),
            proof.opening_proof.fri_proof.commit_phase_commits@,
            Err(e),
        ),
    ensures
        rounds_refused(check, proof, chal, q, e),
{
    let ri = query_of(proof, chal, q);
    let c = ri_chain(ri);
    let commits = proof.opening_proof.fri_proof.commit_phase_commits@;
    assert(c.rounds.len() <= usize::MAX) by {
        let v = proof.opening_proof.fri_proof.query_proofs@[q].commit_phase_openings;
        assert(v.len() <= usize::MAX);
    }
    if commit_shape_report(q, c, commits) is None {
        let step = |k: int, y: Result<(), OpeningsError>|
            commit_round(check, q, c, commits, k, y);
        if in_turn(c.rounds.len(), step, Err(e)) {
            let k = choose|k: int| 0 <= k < c.rounds.len() && #[trigger] fails_at(step, k, e);
            assert(step(k, Err(e)));
            lemma_round_refused(check, proof, chal, q, k, e);
        } else {
            assert(commit_end_report(q, c) == Some(e));
        }
    } else {
        assert(commit_shape_report(q, c, commits) == Some(e));
    }
}

} // verus!
