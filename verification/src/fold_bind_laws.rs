//! The folds of a query hang together: each takes up what the one before it gave, and the last
//! gives the final polynomial. Folds that are accepted hold, each by its own numbers.
use vstd::prelude::*;

use crate::bits::{exp2, lemma_shr_bounds, lemma_shr_divides};
use crate::ext::{eadd, ebase, edouble, emul, eone, esub, ezero, Ext};
use crate::field::{lemma_val_canonical, Val};
use crate::fri_fold_air::{step_holds, FoldAxis, FriFoldAir, FriFoldStepProof};
use crate::fri_fold_bind::{
    agg_bundle_outcome, bundle_outcome, fold_x_outcome, fold_y_outcome, joined_eval, next_state,
    query0, query0_chain, round_pair, AggFriFoldBundle, ChainInput, FoldBindError,
};
use crate::fri_fold_group::{
    all_hold, fold_group_verify_outcome, kind_holds, leading_ys, FriFoldGroupAir,
    FriFoldGroupProof,
};
use crate::fri_fold_m4c::{
    bind_says, covers_all, first_bad, fold_bind_outcome, folds_left_out, group_steps,
    groups_outcome, in_group, lone_step_says, lone_steps_outcome, no_bytes, resolve_outcome,
    stripped, x_group_says, x_groups_outcome, x_outcome, y_outcome, yx_outcome,
    FoldGroupsError, LeafFriFoldGroups,
};
use crate::fri_fold_native::{lemma_fold_doubled, x_twiddle_inv, y_twiddle_inv};
use crate::fri_fs_replay::{is_replay, AggFriChallenges};
use crate::fri_ro::RoInput;
use crate::matrix::RowMajorMatrix;
use crate::openings_laws::{lemma_chain_position, sided};
use crate::pcs_view::{FriParamsView, StarkProofView};

verus! {

/// A step's numbers are those of a fold with the inverse twiddle `t`: twice the output is
/// `v0 (1 + beta t) + v1 (1 - beta t)`.
pub open spec fn folds_with(s: FriFoldStepProof, t: int) -> bool {
    let bt = emul(s.beta(), ebase(t));
    &&& s.t_inv@ == t
    &&& edouble(s.out()) == eadd(
        emul(s.v0(), eadd(eone(), bt)),
        emul(s.v1(), esub(eone(), bt)),
    )
}

/// A step states the ordinate fold of its position.
pub open spec fn folds_y(s: FriFoldStepProof) -> bool {
    &&& s.log_folded_height <= 29
    &&& folds_with(s, y_twiddle_inv(s.index as int, s.log_folded_height as nat))
}

/// A step states the abscissa fold of its position.
pub open spec fn folds_x(s: FriFoldStepProof) -> bool {
    &&& s.log_folded_height <= 28
    &&& s.log_folded_height > 0 || s.index == 0
    &&& folds_with(s, x_twiddle_inv(s.index as int, s.log_folded_height as nat))
}

/// A step that holds has the numbers of its fold.
pub proof fn lemma_step_folds(s: FriFoldStepProof)
    ensures
        step_holds(FoldAxis::Y, s) ==> folds_y(s),
        step_holds(FoldAxis::X, s) ==> folds_x(s),
{
    broadcast use lemma_val_canonical;

    lemma_fold_doubled(
        y_twiddle_inv(s.index as int, s.log_folded_height as nat),
        s.beta(),
        s.v0(),
        s.v1(),
    );
    lemma_fold_doubled(
        x_twiddle_inv(s.index as int, s.log_folded_height as nat),
        s.beta(),
        s.v0(),
        s.v1(),
    );
}

/// The number of codewords of different height in a proof.
pub open spec fn layers_of(proof: StarkProofView) -> nat {
    if proof.quotient_chunks@.len() == 1 {
        2
    } else {
        1
    }
}

/// First-layer fold `k` of the first query: its position, height, challenge and pair.
pub open spec fn first_fold_tied(
    proof: StarkProofView,
    chal: AggFriChallenges,
    k: int,
    s: FriFoldStepProof,
) -> bool {
    let fri = proof.opening_proof.fri_proof;
    let ri = query0(proof, chal);
    let h = proof.degree_bits + chal.log_blowup + k;
    let at = chal.query_indices@[0] as int / (exp2(
        (fri.commit_phase_commits@.len() + 1 - proof.degree_bits - k) as nat,
    ) as int);
    &&& s.log_folded_height == h - 1
    &&& s.index == at / 2
    &&& s.beta() == chal.bivariate_beta@
    &&& (s.v0(), s.v1()) == sided(
        at,
        ri.corrected(k),
        fri.query_proofs@[0].input_proof.first_layer_siblings@[k]@,
    )
    &&& folds_y(s)
}

/// What enters round `k`: what the round before gave, and with it what the first-layer fold of
/// the round's height gave, where there is one.
pub open spec fn taken_up(
    ys: Seq<FriFoldStepProof>,
    xs: Seq<FriFoldStepProof>,
    h: int,
    k: int,
    own: Ext,
) -> bool {
    let before = if k == 0 {
        ezero()
    } else {
        xs[k - 1].out()
    };
    &&& forall|y: int|
        0 <= y < ys.len() && (#[trigger] ys[y]).log_folded_height == h ==> own == eadd(
            before,
            ys[y].out(),
        )
    &&& (forall|y: int| 0 <= y < ys.len() ==> (#[trigger] ys[y]).log_folded_height != h) ==> own
        == before
}

/// Commit-phase fold `k` of the first query.
pub open spec fn round_fold_tied(
    proof: StarkProofView,
    chal: AggFriChallenges,
    b: AggFriFoldBundle,
    k: int,
) -> bool {
    let rounds = proof.opening_proof.fri_proof.query_proofs@[0].commit_phase_openings@;
    let h = rounds.len() + chal.log_blowup - k;
    let at = chal.query_indices@[0] as int / (exp2((k + 1) as nat) as int);
    let s = b.fold_xs@[k];
    &&& s.log_folded_height == h - 1
    &&& s.index == at / 2
    &&& s.beta() == chal.betas@[k]@
    &&& exists|own: Ext|
        #![trigger taken_up(b.fold_ys@, b.fold_xs@, h, k, own)]
        {
            &&& (s.v0(), s.v1()) == sided(at, own, rounds[k].sibling_values@[0]@)
            &&& taken_up(b.fold_ys@, b.fold_xs@, h, k, own)
        }
    &&& folds_x(s)
}

/// An opening above a chain is never taken up.
proof fn lemma_left_behind(c: ChainInput, k: nat, m: nat)
    requires
        k <= m,
        c.query_index >= 0,
        c.state(k).joined < c.ros.len(),
        c.ros[c.state(k).joined].0 > c.state(k).log_height,
    ensures
        c.state(m).joined == c.state(k).joined,
    decreases m,
{
    if k < m {
        lemma_left_behind(c, k, (m - 1) as nat);
        lemma_chain_position(c, k);
        lemma_chain_position(c, (m - 1) as nat);
    }
}

/// What a chain has taken up stands above it.
proof fn lemma_taken_above(c: ChainInput, k: nat)
    requires
        c.query_index >= 0,
    ensures
        0 <= c.state(k).joined <= c.ros.len(),
        forall|j: int|
            0 <= j < c.state(k).joined ==> (#[trigger] c.ros[j]).0 > c.state(k).log_height,
    decreases k,
{
    if k > 0 {
        lemma_taken_above(c, (k - 1) as nat);
        lemma_chain_position(c, k);
        lemma_chain_position(c, (k - 1) as nat);
    }
}

/// In a chain that holds, the opening of a round's height is the next to be taken up.
proof fn lemma_next_up(c: ChainInput, max_rounds: usize, k: nat, j: int)
    requires
        c.query_index >= 0,
        c.report(max_rounds) is None,
        k <= c.rounds.len(),
        0 <= j < c.ros.len(),
        c.ros[j].0 == c.state(k).log_height,
        forall|a: int, b: int|
            0 <= a < b < c.ros.len() ==> (#[trigger] c.ros[a]).0 > (#[trigger] c.ros[b]).0,
    ensures
        c.state(k).joined == j,
{
    lemma_taken_above(c, k);
    let s = c.state(k);
    if s.joined < j {
        assert(c.ros[s.joined].0 > c.ros[j].0);
        lemma_left_behind(c, k, c.rounds.len());
    }
}

/// The reduced openings: two heights where there is one quotient chunk, and else one; the
/// folded ones are listed highest first.
proof fn lemma_layers(ri: RoInput, width: usize)
    requires
        ri.report(width) is None,
    ensures
        ri.sums().len() == layers_of(ri.proof),
        forall|k: int|
            0 <= k < ri.sums().len() ==> (#[trigger] ri.sums()[k]).0 == ri.trace_height() + k
                && ri.sums()[k].0 <= ri.log_max_height() && 1 <= ri.sums()[k].0 <= 30,
{
    crate::checks::lemma_first_some_none(
        ri.chunks() as nat,
        |i: int| ri.chunk_report(i),
        0,
    );
    assert(ri.chunk_report(0) is None);
}

/// The first-layer folds of a bundle.
proof fn lemma_first_folds<
    F: Fn(&FriFoldAir, &RowMajorMatrix, &[Val]) -> Result<Vec<u8>, String>,
>(prover: F, proof: StarkProofView, chal: AggFriChallenges, b: AggFriFoldBundle, k: int)
    requires
        bundle_outcome(prover, proof, chal, Ok(b)),
        0 <= k < b.fold_ys@.len(),
    ensures
        first_fold_tied(proof, chal, k, b.fold_ys@[k]),
        b.fold_ys@[k].out() == query0(proof, chal).folded(k),
        b.fold_ys@[k].log_folded_height == query0(proof, chal).sums()[k].0 - 1,
{
    let ri = query0(proof, chal);
    let s = b.fold_ys@[k];
    assert(fold_y_outcome(prover, ri, k, Ok(s)));
    lemma_layers(ri, crate::agg_constraints::AGG_WIDTH);
    lemma_step_folds(s);
    let h = ri.sums()[k].0;
    lemma_shr_divides(ri.query_index(), (ri.log_max_height() - h) as nat);
    lemma_shr_bounds(ri.query_index(), (ri.log_max_height() - h) as nat);
}

/// What a round of a chain that holds gives.
proof fn lemma_round_gives<
    F: Fn(&FriFoldAir, &RowMajorMatrix, &[Val]) -> Result<Vec<u8>, String>,
>(prover: F, c: ChainInput, k: int, s: FriFoldStepProof)
    requires
        c.query_index >= 0,
        0 <= k < c.rounds.len(),
        fold_x_outcome(prover, c, k, Ok(s)),
    ensures
        c.state((k + 1) as nat).eval == s.out(),
        s.log_folded_height == c.state(k as nat).log_height - 1,
        s.index == c.state(k as nat).index / 2,
        s.beta() == c.betas[k],
        (s.v0(), s.v1()) == round_pair(
            c.state(k as nat),
            c.ros,
            c.rounds[k].sibling_values@[0]@,
        ),
        folds_x(s),
{
    lemma_step_folds(s);
    assert(c.state((k + 1) as nat) == next_state(
        c.state(k as nat),
        c.ros,
        c.betas[k],
        c.rounds[k].sibling_values@[0]@,
    ));
}

/// A commit-phase fold of a bundle.
proof fn lemma_round_fold<
    F: Fn(&FriFoldAir, &RowMajorMatrix, &[Val]) -> Result<Vec<u8>, String>,
>(prover: F, proof: StarkProofView, chal: AggFriChallenges, b: AggFriFoldBundle, k: int)
    requires
        bundle_outcome(prover, proof, chal, Ok(b)),
        chal.extra_query_index_bits == 1,
        0 <= k < b.fold_xs@.len(),
    ensures
        round_fold_tied(proof, chal, b, k),
{
    let ri = query0(proof, chal);
    let c = query0_chain(proof, chal);
    let n = ri.sums().len();
    let ys = b.fold_ys@;
    let xs = b.fold_xs@;
    let h = c.rounds.len() + chal.log_blowup - k;
    lemma_layers(ri, crate::agg_constraints::AGG_WIDTH);
    lemma_chain_position(c, k as nat);
    let st = c.state(k as nat);
    assert(fold_x_outcome(prover, c, k, Ok(xs[k])));
    lemma_round_gives(prover, c, k, xs[k]);
    if k > 0 {
        assert(fold_x_outcome(prover, c, k - 1, Ok(xs[k - 1])));
        lemma_round_gives(prover, c, k - 1, xs[k - 1]);
    }
    assert(c.betas[k] == chal.betas@[k]@);
    let own = joined_eval(st, c.ros);
    assert forall|y: int|
        0 <= y < ys.len() && (#[trigger] ys[y]).log_folded_height == h implies own == eadd(
        st.eval,
        ys[y].out(),
    ) by {
        lemma_first_folds(prover, proof, chal, b, y);
        assert(c.ros[n - 1 - y] == (ri.sums()[y].0 - 1, ri.folded(y)));
        lemma_next_up(c, crate::fri_fold_bind::AGG_FRI_MAX_ROUNDS, k as nat, n - 1 - y);
    }
    if forall|y: int| 0 <= y < ys.len() ==> (#[trigger] ys[y]).log_folded_height != h {
        if st.joined < c.ros.len() && c.ros[st.joined].0 == st.log_height {
            lemma_taken_above(c, k as nat);
            let y = n - 1 - st.joined;
            lemma_first_folds(prover, proof, chal, b, y);
            assert(c.ros[st.joined] == (ri.sums()[y].0 - 1, ri.folded(y)));
            assert(ys[y].log_folded_height == h);
        }
    }
    assert(taken_up(ys, xs, h, k, own));
}

/// The folds made of a proof's first query hang together: one for each height of the first
/// layer, one for each commit-phase round, each round taking up what the one before it gave and
/// the first-layer fold of its height; every height is taken up, and the last round gives the
/// final polynomial.
pub proof fn lemma_folds_hang_together<
    F: Fn(&FriFoldAir, &RowMajorMatrix, &[Val]) -> Result<Vec<u8>, String>,
>(prover: F, proof: StarkProofView, chal: AggFriChallenges, b: AggFriFoldBundle)
    requires
        bundle_outcome(prover, proof, chal, Ok(b)),
        chal.extra_query_index_bits == 1,
    ensures
        b.fold_ys@.len() == layers_of(proof),
        forall|k: int|
            0 <= k < b.fold_ys@.len() ==> first_fold_tied(proof, chal, k, #[trigger] b.fold_ys@[k]),
        b.fold_xs@.len()
            == proof.opening_proof.fri_proof.query_proofs@[0].commit_phase_openings@.len(),
        b.fold_xs@.len() == proof.opening_proof.fri_proof.commit_phase_commits@.len(),
        b.fold_xs@.len() <= 4,
        forall|k: int|
            0 <= k < b.fold_xs@.len() ==> #[trigger] round_fold_tied(proof, chal, b, k),
        b.fold_xs@.len() > 0,
        b.fold_xs@.last().out() == proof.opening_proof.fri_proof.final_poly@,
        forall|y: int|
            0 <= y < b.fold_ys@.len() ==> exists|k: int|
                0 <= k < b.fold_xs@.len() && (#[trigger] b.fold_xs@[k]).log_folded_height + 1
                    == (#[trigger] b.fold_ys@[y]).log_folded_height,
{
    let ri = query0(proof, chal);
    let c = query0_chain(proof, chal);
    let n = ri.sums().len();
    lemma_layers(ri, crate::agg_constraints::AGG_WIDTH);
    assert forall|k: int| 0 <= k < b.fold_ys@.len() implies first_fold_tied(
        proof,
        chal,
        k,
        #[trigger] b.fold_ys@[k],
    ) by {
        lemma_first_folds(prover, proof, chal, b, k);
    }
    assert forall|k: int| 0 <= k < b.fold_xs@.len() implies #[trigger] round_fold_tied(
        proof,
        chal,
        b,
        k,
    ) by {
        lemma_round_fold(prover, proof, chal, b, k);
    }
    let m = c.rounds.len();
    assert(c.report(crate::fri_fold_bind::AGG_FRI_MAX_ROUNDS) is None);
    assert(c.state(m).joined >= n);
    if m == 0 {
        assert(c.state(0).joined == 0);
    }
    assert(fold_x_outcome(prover, c, m - 1, Ok(b.fold_xs@[m - 1])));
    lemma_round_gives(prover, c, m - 1, b.fold_xs@[m - 1]);
    assert forall|y: int| 0 <= y < b.fold_ys@.len() implies exists|k: int|
        0 <= k < b.fold_xs@.len() && (#[trigger] b.fold_xs@[k]).log_folded_height + 1 == (
        #[trigger] b.fold_ys@[y]).log_folded_height by {
        let j = n - 1 - y;
        lemma_first_folds(prover, proof, chal, b, y);
        assert(c.ros[j].0 == ri.sums()[y].0 - 1);
        let k = lemma_taken_in_round(c, m, j);
        assert(fold_x_outcome(prover, c, k, Ok(b.fold_xs@[k])));
        lemma_round_gives(prover, c, k, b.fold_xs@[k]);
    }
}

/// What a chain has taken up, it took up in a round of that height.
proof fn lemma_taken_in_round(c: ChainInput, m: nat, j: int) -> (k: int)
    requires
        c.query_index >= 0,
        0 <= j < c.state(m).joined,
    ensures
        0 <= k < m,
        c.state(k as nat).log_height == c.ros[j].0,
    decreases m,
{
    let p = (m - 1) as nat;
    lemma_taken_above(c, p);
    if j < c.state(p).joined {
        lemma_taken_in_round(c, p, j)
    } else {
        p as int
    }
}

/// The folds made of an aggregation proof hang together, under the challenges drawn for it.
pub proof fn lemma_proof_folds_hang_together<
    F: Fn(&FriFoldAir, &RowMajorMatrix, &[Val]) -> Result<Vec<u8>, String>,
>(prover: F, proof: StarkProofView, params: FriParamsView, b: AggFriFoldBundle)
    requires
        agg_bundle_outcome(prover, proof, params, Ok(b)),
    ensures
        b.fold_ys@.len() == layers_of(proof),
        b.fold_xs@.len() == proof.opening_proof.fri_proof.commit_phase_commits@.len(),
        b.fold_xs@.len() > 0,
        b.fold_xs@.last().out() == proof.opening_proof.fri_proof.final_poly@,
        exists|chal: AggFriChallenges|
            {
                &&& #[trigger] is_replay(chal, proof, params)
                &&& forall|k: int|
                    0 <= k < b.fold_ys@.len() ==> first_fold_tied(
                        proof,
                        chal,
                        k,
                        #[trigger] b.fold_ys@[k],
                    )
                &&& forall|k: int|
                    0 <= k < b.fold_xs@.len() ==> #[trigger] round_fold_tied(proof, chal, b, k)
            },
{
    let r = Ok::<AggFriFoldBundle, FoldBindError>(b);
    let chal = choose|chal: AggFriChallenges| #[trigger]
        is_replay(chal, proof, params) && bundle_outcome(prover, proof, chal, r);
    lemma_folds_hang_together(prover, proof, chal, b);
}

/// Steps that pass one by one.
proof fn lemma_lone_steps<W: Fn(&FriFoldAir, &[Val], &[u8]) -> bool>(
    fold_verifier: W,
    axis: FoldAxis,
    steps: Seq<FriFoldStepProof>,
)
    requires
        lone_steps_outcome(fold_verifier, axis, steps, None),
    ensures
        all_hold(axis, steps),
{
    assert forall|i: int| 0 <= i < steps.len() implies step_holds(axis, #[trigger] steps[i]) by {
        assert(lone_step_says(fold_verifier, axis, steps[i], true));
    }
}

/// Leading ordinate folds.
proof fn lemma_leading(steps: Seq<FriFoldStepProof>, from: int)
    requires
        0 <= from <= steps.len(),
    ensures
        from <= leading_ys(steps, from) <= steps.len(),
        forall|i: int|
            from <= i < leading_ys(steps, from) ==> step_holds(FoldAxis::Y, #[trigger] steps[i]),
    decreases steps.len() - from,
{
    if from < steps.len() && step_holds(FoldAxis::Y, steps[from]) {
        lemma_leading(steps, from + 1);
    }
}

/// A group that passes: its steps hold on the axis that its kind names, or on one of both.
proof fn lemma_group_holds<V: Fn(&FriFoldGroupAir, &[Val], &[u8]) -> bool>(
    group_verifier: V,
    steps: Seq<FriFoldStepProof>,
    g: FriFoldGroupProof,
)
    requires
        fold_group_verify_outcome(group_verifier, steps, g, true),
    ensures
        forall|i: int|
            0 <= i < steps.len() ==> folds_y(#[trigger] steps[i]) || folds_x(steps[i]),
        g.kind == 0 ==> forall|i: int| 0 <= i < steps.len() ==> folds_y(#[trigger] steps[i]),
        g.kind == 1 ==> forall|i: int| 0 <= i < steps.len() ==> folds_x(#[trigger] steps[i]),
        g.kind <= 2,
        steps.len() as u32 == g.step_count,
{
    lemma_leading(steps, 0);
    assert(kind_holds(g.kind, steps));
    assert forall|i: int| 0 <= i < steps.len() implies {
        &&& folds_y(#[trigger] steps[i]) || folds_x(steps[i])
        &&& g.kind == 0 ==> folds_y(steps[i])
        &&& g.kind == 1 ==> folds_x(steps[i])
    } by {
        lemma_step_folds(steps[i]);
        assert(step_holds(FoldAxis::Y, steps[i]) || step_holds(FoldAxis::X, steps[i]));
    }
}

/// First-layer folds that pass.
pub open spec fn ys_stand(ys: Seq<FriFoldStepProof>, groups: LeafFriFoldGroups) -> bool {
    &&& forall|i: int| 0 <= i < ys.len() ==> folds_y(#[trigger] ys[i]) || folds_x(ys[i])
    &&& (groups.fold_ys is None || groups.fold_ys->0.group_stark@.len() == 0
        || groups.fold_ys->0.kind == 0) ==> forall|i: int|
        0 <= i < ys.len() ==> folds_y(#[trigger] ys[i])
    &&& groups.fold_ys is Some ==> forall|i: int|
        0 <= i < ys.len() ==> (#[trigger] ys[i]).fold_stark@.len() == 0
}

/// Commit-phase folds that pass: each step that a group counts, or every step where there are no
/// groups for them.
pub open spec fn xs_stand(xs: Seq<FriFoldStepProof>, groups: LeafFriFoldGroups) -> bool {
    let gs = groups.fold_xs_by_log_h@;
    let all = groups.fold_ys matches Some(g) && g.kind == 2;
    &&& all || gs.len() == 0 ==> forall|i: int|
        0 <= i < xs.len() ==> folds_y(#[trigger] xs[i]) || folds_x(xs[i])
    &&& all && groups.fold_ys->0.group_stark@.len() == 0 ==> forall|i: int|
        0 <= i < xs.len() ==> folds_x(#[trigger] xs[i])
    &&& !all && gs.len() == 0 ==> forall|i: int| 0 <= i < xs.len() ==> folds_x(#[trigger] xs[i])
    &&& !all ==> forall|i: int, k: int|
        0 <= i < xs.len() && 0 <= k < gs.len() && counts(#[trigger] gs[k], #[trigger] xs[i])
            ==> folds_y(xs[i]) || folds_x(xs[i])
    &&& !all ==> forall|i: int, k: int|
        0 <= i < xs.len() && 0 <= k < gs.len() && counts(#[trigger] gs[k], #[trigger] xs[i]) && (
        gs[k].group_stark@.len() == 0 || gs[k].kind == 1) ==> folds_x(xs[i])
    &&& all || gs.len() > 0 ==> forall|i: int|
        0 <= i < xs.len() ==> (#[trigger] xs[i]).fold_stark@.len() == 0
}

/// A group stands for a step: it is for all heights, or for the step's.
pub open spec fn counts(g: FriFoldGroupProof, s: FriFoldStepProof) -> bool {
    g.log_folded_height == 0xffff_ffff || g.log_folded_height == s.log_folded_height
}

/// Folds without proof bytes that a group stands for all of.
proof fn lemma_yx_stand<V: Fn(&FriFoldGroupAir, &[Val], &[u8]) -> bool>(
    group_verifier: V,
    ys: Seq<FriFoldStepProof>,
    xs: Seq<FriFoldStepProof>,
    groups: LeafFriFoldGroups,
)
    requires
        groups.fold_ys matches Some(g) && g.kind == 2 && yx_outcome(
            group_verifier,
            ys,
            xs,
            g,
            Ok(()),
        ),
    ensures
        ys_stand(ys, groups),
        xs_stand(xs, groups),
        (ys.len() + xs.len()) as u32 == groups.fold_ys->0.step_count,
{
    let g = groups.fold_ys->0;
    let all = ys + xs;
    let r = Ok::<(), FoldGroupsError>(());
    assert forall|i: int| 0 <= i < ys.len() implies #[trigger] ys[i] == all[i] by {}
    assert forall|i: int| 0 <= i < xs.len() implies #[trigger] xs[i] == all[ys.len() + i] by {}
    if g.group_stark@.len() == 0 {
        let (by, bx) = choose|by: Option<usize>, bx: Option<usize>|
            #![trigger first_bad(FoldAxis::Y, ys, by), first_bad(FoldAxis::X, xs, bx)]
            {
                &&& first_bad(FoldAxis::Y, ys, by)
                &&& first_bad(FoldAxis::X, xs, bx)
                &&& r == (match (by, bx) {
                    (Some(i), _) => Err::<(), FoldGroupsError>(
                        FoldGroupsError::YxNative(FoldAxis::Y, i),
                    ),
                    (None, Some(i)) => Err::<(), FoldGroupsError>(
                        FoldGroupsError::YxNative(FoldAxis::X, i),
                    ),
                    (None, None) => if no_bytes(ys + xs) {
                        Ok::<(), FoldGroupsError>(())
                    } else {
                        Err::<(), FoldGroupsError>(FoldGroupsError::YxResidual)
                    },
                })
            };
        assert(by is None && bx is None);
        assert forall|i: int| 0 <= i < ys.len() implies folds_y(#[trigger] ys[i]) by {
            lemma_step_folds(ys[i]);
        }
        assert forall|i: int| 0 <= i < xs.len() implies folds_x(#[trigger] xs[i]) by {
            lemma_step_folds(xs[i]);
        }
    } else {
        assert(fold_group_verify_outcome(group_verifier, all, g, true));
        lemma_group_holds(group_verifier, all, g);
    }
    assert(no_bytes(all));
}

/// First-layer folds that pass on their own.
proof fn lemma_ys_stand<
    V: Fn(&FriFoldGroupAir, &[Val], &[u8]) -> bool,
    W: Fn(&FriFoldAir, &[Val], &[u8]) -> bool,
>(
    group_verifier: V,
    fold_verifier: W,
    ys: Seq<FriFoldStepProof>,
    groups: LeafFriFoldGroups,
)
    requires
        y_outcome(group_verifier, fold_verifier, ys, groups.fold_ys, Ok(())),
    ensures
        ys_stand(ys, groups),
{
    let r = Ok::<(), FoldGroupsError>(());
    match groups.fold_ys {
        Some(gy) => {
            if gy.group_stark@.len() == 0 {
                assert(first_bad(FoldAxis::Y, ys, None));
                assert forall|i: int| 0 <= i < ys.len() implies folds_y(#[trigger] ys[i]) by {
                    lemma_step_folds(ys[i]);
                }
            } else {
                assert(fold_group_verify_outcome(group_verifier, ys, gy, true));
                lemma_group_holds(group_verifier, ys, gy);
            }
        },
        None => {
            assert(lone_steps_outcome(fold_verifier, FoldAxis::Y, ys, None));
            lemma_lone_steps(fold_verifier, FoldAxis::Y, ys);
            assert forall|i: int| 0 <= i < ys.len() implies folds_y(#[trigger] ys[i]) by {
                lemma_step_folds(ys[i]);
            }
        },
    }
}

/// A step that a group stands for is among its steps.
proof fn lemma_in_group(xs: Seq<FriFoldStepProof>, g: FriFoldGroupProof, i: int) -> (j: int)
    requires
        0 <= i < xs.len(),
        counts(g, xs[i]),
    ensures
        0 <= j < group_steps(xs, g).len(),
        group_steps(xs, g)[j] == xs[i],
{
    let pred = |s: FriFoldStepProof| in_group(s, g);
    assert(pred(xs[i]));
    xs.lemma_filter_contains(pred, i);
    assert(xs.filter(pred).contains(xs[i]));
    choose|j: int| 0 <= j < xs.filter(pred).len() && xs.filter(pred)[j] == xs[i]
}

/// A commit-phase group that passes.
proof fn lemma_x_group<V: Fn(&FriFoldGroupAir, &[Val], &[u8]) -> bool>(
    group_verifier: V,
    xs: Seq<FriFoldStepProof>,
    g: FriFoldGroupProof,
    k: int,
    i: int,
)
    requires
        x_group_says(group_verifier, xs, g, k, None),
        0 <= i < xs.len(),
        counts(g, xs[i]),
    ensures
        folds_y(xs[i]) || folds_x(xs[i]),
        g.group_stark@.len() == 0 || g.kind == 1 ==> folds_x(xs[i]),
{
    let sel = group_steps(xs, g);
    let j = lemma_in_group(xs, g, i);
    lemma_step_folds(xs[i]);
    if g.group_stark@.len() == 0 {
        assert(first_bad(FoldAxis::X, sel, None));
        assert(step_holds(FoldAxis::X, sel[j]));
    } else {
        assert(fold_group_verify_outcome(group_verifier, sel, g, true));
        lemma_group_holds(group_verifier, sel, g);
        assert(folds_y(sel[j]) || folds_x(sel[j]));
    }
}

/// Commit-phase folds that pass on their own.
proof fn lemma_xs_stand<
    V: Fn(&FriFoldGroupAir, &[Val], &[u8]) -> bool,
    W: Fn(&FriFoldAir, &[Val], &[u8]) -> bool,
>(
    group_verifier: V,
    fold_verifier: W,
    xs: Seq<FriFoldStepProof>,
    groups: LeafFriFoldGroups,
)
    requires
        !(groups.fold_ys matches Some(g) && g.kind == 2),
        x_outcome(group_verifier, fold_verifier, xs, groups.fold_xs_by_log_h@, Ok(())),
    ensures
        xs_stand(xs, groups),
{
    let gs = groups.fold_xs_by_log_h@;
    if gs.len() == 0 {
        assert(lone_steps_outcome(fold_verifier, FoldAxis::X, xs, None));
        lemma_lone_steps(fold_verifier, FoldAxis::X, xs);
        assert forall|i: int| 0 <= i < xs.len() implies folds_x(#[trigger] xs[i]) by {
            lemma_step_folds(xs[i]);
        }
    } else {
        assert(x_groups_outcome(group_verifier, xs, gs, Ok(())));
        assert forall|i: int, k: int|
            0 <= i < xs.len() && 0 <= k < gs.len() && counts(
                #[trigger] gs[k],
                #[trigger] xs[i],
            ) implies {
            &&& folds_y(xs[i]) || folds_x(xs[i])
            &&& gs[k].group_stark@.len() == 0 || gs[k].kind == 1 ==> folds_x(xs[i])
        } by {
            assert(x_group_says(group_verifier, xs, gs[k], k, None));
            lemma_x_group(group_verifier, xs, gs[k], k, i);
        }
    }
}

/// Folds that pass with their groups hold, each by its own numbers.
pub proof fn lemma_grouped_folds_hold<
    V: Fn(&FriFoldGroupAir, &[Val], &[u8]) -> bool,
    W: Fn(&FriFoldAir, &[Val], &[u8]) -> bool,
>(
    group_verifier: V,
    fold_verifier: W,
    ys: Seq<FriFoldStepProof>,
    xs: Seq<FriFoldStepProof>,
    groups: LeafFriFoldGroups,
)
    requires
        groups_outcome(group_verifier, fold_verifier, ys, xs, groups, Ok(())),
    ensures
        ys_stand(ys, groups),
        xs_stand(xs, groups),
{
    let r = Ok::<(), FoldGroupsError>(());
    if covers_all(groups.fold_ys) {
        lemma_yx_stand(group_verifier, ys, xs, groups);
    } else {
        let ry = choose|ry: Result<(), FoldGroupsError>| #[trigger]
            y_outcome(group_verifier, fold_verifier, ys, groups.fold_ys, ry) && (match ry {
                Err(e) => r == Err::<(), FoldGroupsError>(e),
                Ok(_) => x_outcome(
                    group_verifier,
                    fold_verifier,
                    xs,
                    groups.fold_xs_by_log_h@,
                    r,
                ),
            });
        assert(ry is Ok);
        assert(ry->Ok_0 == ());
        assert(ry == r);
        lemma_ys_stand(group_verifier, fold_verifier, ys, groups);
        lemma_xs_stand(group_verifier, fold_verifier, xs, groups);
    }
}

/// A step as another one has it, but for the proof bytes.
pub open spec fn same_numbers(a: FriFoldStepProof, b: FriFoldStepProof) -> bool {
    &&& a.index == b.index
    &&& a.log_folded_height == b.log_folded_height
    &&& a.t_inv == b.t_inv
    &&& a.beta() == b.beta()
    &&& a.v0() == b.v0()
    &&& a.v1() == b.v1()
    &&& a.out() == b.out()
}

/// Steps as others have them, but for the proof bytes.
pub open spec fn all_same_numbers(a: Seq<FriFoldStepProof>, b: Seq<FriFoldStepProof>) -> bool {
    a.len() == b.len() && forall|i: int|
        0 <= i < a.len() ==> same_numbers(#[trigger] a[i], b[i])
}

/// Folds that are bound: the ones given, or where they were left out those made of the proof,
/// were compared with the proof and found to belong to it, and they hold.
pub proof fn lemma_bound_folds_hold<
    G: Fn() -> Result<AggFriFoldBundle, String>,
    B: Fn(&[FriFoldStepProof], &[FriFoldStepProof]) -> Result<(), String>,
    V: Fn(&FriFoldGroupAir, &[Val], &[u8]) -> bool,
    W: Fn(&FriFoldAir, &[Val], &[u8]) -> bool,
>(
    rebuild: G,
    bind: B,
    group_verifier: V,
    fold_verifier: W,
    ys: Seq<FriFoldStepProof>,
    xs: Seq<FriFoldStepProof>,
    groups: LeafFriFoldGroups,
)
    requires
        fold_bind_outcome(
            rebuild,
            bind,
            group_verifier,
            fold_verifier,
            ys,
            xs,
            groups,
            Ok(()),
        ),
    ensures
        exists|y: &[FriFoldStepProof], x: &[FriFoldStepProof]|
            {
                &&& #[trigger] call_ensures(bind, (y, x), Ok(()))
                &&& ys_stand(y@, groups)
                &&& xs_stand(x@, groups)
                &&& {
                    ||| all_same_numbers(y@, ys) && all_same_numbers(x@, xs)
                    ||| exists|b: AggFriFoldBundle| #[trigger]
                        call_ensures(rebuild, (), Ok(b)) && all_same_numbers(y@, b.fold_ys@)
                            && all_same_numbers(x@, b.fold_xs@) && (ys.len() == 0 || xs.len() == 0)
                }
            },
{
    let r = Ok::<(), FoldGroupsError>(());
    let s = choose|s: Result<(Vec<FriFoldStepProof>, Vec<FriFoldStepProof>), String>| #[trigger]
        resolve_outcome(rebuild, ys, xs, groups, s) && (match s {
            Err(e) => r == Err::<(), FoldGroupsError>(FoldGroupsError::Rebuild(e)),
            Ok(f) => exists|b: Result<(), String>| #[trigger]
                bind_says(bind, f.0@, f.1@, b) && (match b {
                    Err(e) => r == Err::<(), FoldGroupsError>(FoldGroupsError::Bind(e)),
                    Ok(_) => groups_outcome(
                        group_verifier,
                        fold_verifier,
                        f.0@,
                        f.1@,
                        groups,
                        r,
                    ),
                }),
        });
    let f = s->Ok_0;
    let b = choose|b: Result<(), String>| #[trigger]
        bind_says(bind, f.0@, f.1@, b) && (match b {
            Err(e) => r == Err::<(), FoldGroupsError>(FoldGroupsError::Bind(e)),
            Ok(_) => groups_outcome(group_verifier, fold_verifier, f.0@, f.1@, groups, r),
        });
    assert(b is Ok);
    assert(b->Ok_0 == ());
    assert(b == Ok::<(), String>(()));
    lemma_grouped_folds_hold(group_verifier, fold_verifier, f.0@, f.1@, groups);
    let (y, x) = choose|y: &[FriFoldStepProof], x: &[FriFoldStepProof]| #[trigger]
        call_ensures(bind, (y, x), b) && y@ == f.0@ && x@ == f.1@;
    assert(call_ensures(bind, (y, x), Ok(())));
    if folds_left_out(ys.len() as int, xs.len() as int, groups) {
        let q = choose|q: Result<AggFriFoldBundle, String>| #[trigger]
            call_ensures(rebuild, (), q) && (match q {
                Ok(bundle) => s matches Ok(t) && stripped(bundle.fold_ys@, t.0@) && stripped(
                    bundle.fold_xs@,
                    t.1@,
                ),
                Err(e) => s == Err::<(Vec<FriFoldStepProof>, Vec<FriFoldStepProof>), String>(e),
            });
        let bundle = q->Ok_0;
        assert(q == Ok::<AggFriFoldBundle, String>(bundle));
        assert(call_ensures(rebuild, (), Ok(bundle)));
        assert(all_same_numbers(y@, bundle.fold_ys@));
        assert(all_same_numbers(x@, bundle.fold_xs@));
    } else {
        assert(all_same_numbers(y@, ys));
        assert(all_same_numbers(x@, xs));
    }
}

} // verus!
