//! The folds of a query, from a proof.
//!
//! The first-layer folds come from the reduced openings; the commit-phase folds start from them
//! and take the sibling of each round from the query, down to the final polynomial.
use vstd::prelude::*;

use crate::agg_constraints::AGG_WIDTH;
use crate::bits::{shift_right, shr};
use crate::checks::{first_some, lemma_first_some_stops};
use crate::ext::{eadd, evals_of, ezero, Challenge, Ext};
use crate::field::Val;
use crate::fri_fold_air::{
    fold_prove_outcome, generate_fri_fold_proof, generate_fri_fold_y_proof, FoldAxis, FriFoldAir,
    FriFoldError, FriFoldStepProof,
};
use crate::fri_fold_native::{fold_pair, fold_x_row, x_fold_ok, x_twiddle_inv};
use crate::fri_fs_replay::{
    decode_pcs_view, is_replay, params_ok, replay_agg_fri_challenges, replay_report,
    AggFriChallenges, ReplayError,
};
use crate::fri_ro::{reconstruct_agg_query_ro, RoError, RoInput};
use crate::matrix::RowMajorMatrix;
use crate::pcs_view::{CommitPhaseStepView, FriParamsView, QueryProofView, StarkProofView};
use crate::proof_system::prover_ready;

verus! {

/// Number of queries whose folds are proven.
pub const AGG_FRI_PROVEN_QUERIES: usize = 1;

/// The most commit-phase rounds of an aggregation proof.
pub const AGG_FRI_MAX_ROUNDS: usize = 4;

/// The most first-layer folds of a query.
pub const AGG_FRI_MAX_FOLD_YS: usize = 4;

/// The inputs of one commit-phase fold.
#[derive(Debug, Clone, Copy)]
pub struct FoldWitness {
    pub index: usize,
    pub log_folded_height: usize,
    pub beta: Challenge,
    pub v0: Challenge,
    pub v1: Challenge,
}

/// The folds of a query: first layer, then commit phase.
#[derive(Debug, Clone)]
pub struct AggFriFoldBundle {
    pub fold_ys: Vec<FriFoldStepProof>,
    pub fold_xs: Vec<FriFoldStepProof>,
}

/// Why a fold chain does not hold.
#[derive(Debug, Clone, Copy, PartialEq, Eq)]
pub enum FoldChainError {
    /// The rounds of the query and the challenges differ in number.
    RoundCount,
    TooManyRounds(usize),
    Arity,
    SiblingCount(usize),
    /// The fold of a round has no twiddle.
    Height(usize),
    /// The last fold is not the final polynomial.
    FinalPoly,
    UnusedOpenings,
}

/// Where a chain stands at the start of a round.
pub struct ChainState {
    pub index: int,
    pub log_height: int,
    pub eval: Ext,
    /// How many reduced openings have joined.
    pub joined: int,
}

/// The chain's value in a round, with the opening of its height joined.
pub open spec fn joined_eval(s: ChainState, ros: Seq<(int, Ext)>) -> Ext {
    if s.joined < ros.len() && ros[s.joined].0 == s.log_height {
        eadd(s.eval, ros[s.joined].1)
    } else {
        s.eval
    }
}

/// The pair folded in a round.
pub open spec fn round_pair(s: ChainState, ros: Seq<(int, Ext)>, sibling: Ext) -> (Ext, Ext) {
    if s.index % 2 == 0 {
        (joined_eval(s, ros), sibling)
    } else {
        (sibling, joined_eval(s, ros))
    }
}

/// The chain after a round.
pub open spec fn next_state(
    s: ChainState,
    ros: Seq<(int, Ext)>,
    beta: Ext,
    sibling: Ext,
) -> ChainState {
    let (v0, v1) = round_pair(s, ros, sibling);
    ChainState {
        index: s.index / 2,
        log_height: s.log_height - 1,
        eval: fold_pair(x_twiddle_inv(s.index / 2, (s.log_height - 1) as nat), beta, v0, v1),
        joined: if s.joined < ros.len() && ros[s.joined].0 == s.log_height {
            s.joined + 1
        } else {
            s.joined
        },
    }
}

/// The chain at the start of round `r`.
pub open spec fn chain_state(
    rounds: Seq<CommitPhaseStepView>,
    betas: Seq<Ext>,
    ros: Seq<(int, Ext)>,
    index: int,
    log_height: int,
    r: nat,
) -> ChainState
    decreases r,
{
    if r == 0 {
        ChainState { index, log_height, eval: ezero(), joined: 0 }
    } else {
        next_state(
            chain_state(rounds, betas, ros, index, log_height, (r - 1) as nat),
            ros,
            betas[r - 1],
            rounds[r - 1].sibling_values@[0]@,
        )
    }
}

/// What a chain reads.
pub struct ChainInput {
    pub rounds: Seq<CommitPhaseStepView>,
    pub betas: Seq<Ext>,
    pub ros: Seq<(int, Ext)>,
    pub query_index: int,
    pub extra_bits: nat,
    pub log_blowup: int,
    pub final_poly: Ext,
}

impl ChainInput {
    pub open spec fn state(self, r: nat) -> ChainState {
        chain_state(
            self.rounds,
            self.betas,
            self.ros,
            shr(self.query_index, self.extra_bits),
            self.rounds.len() + self.log_blowup,
            r,
        )
    }

    /// Why round `r` cannot be folded, if so.
    pub open spec fn round_report(self, r: int) -> Option<FoldChainError> {
        let s = self.state(r as nat);
        if self.rounds[r].sibling_values@.len() != 1 {
            Some(FoldChainError::SiblingCount(r as usize))
        } else if !x_fold_ok(s.index / 2, s.log_height - 1) {
            Some(FoldChainError::Height(r as usize))
        } else {
            None
        }
    }

    /// Why the chain does not hold, if so.
    pub open spec fn report(self, max_rounds: usize) -> Option<FoldChainError> {
        let rounds = first_some(self.rounds.len(), |r: int| self.round_report(r));
        let end = self.state(self.rounds.len());
        if self.rounds.len() != self.betas.len() {
            Some(FoldChainError::RoundCount)
        } else if self.rounds.len() > max_rounds {
            Some(FoldChainError::TooManyRounds(self.rounds.len() as usize))
        } else if exists|r: int|
            0 <= r < self.rounds.len() && (#[trigger] self.rounds[r]).log_arity != 1 {
            Some(FoldChainError::Arity)
        } else if rounds is Some {
            rounds
        } else if end.eval != self.final_poly {
            Some(FoldChainError::FinalPoly)
        } else if end.joined < self.ros.len() {
            Some(FoldChainError::UnusedOpenings)
        } else {
            None
        }
    }

    /// `w` is the fold of round `r`.
    pub open spec fn is_witness(self, w: FoldWitness, r: int) -> bool {
        let s = self.state(r as nat);
        &&& w.index == s.index / 2
        &&& w.log_folded_height == s.log_height - 1
        &&& w.beta@ == self.betas[r]
        &&& (w.v0@, w.v1@) == round_pair(s, self.ros, self.rounds[r].sibling_values@[0]@)
    }
}

/// The views of reduced openings.
pub open spec fn ro_views(s: Seq<(usize, Challenge)>) -> Seq<(int, Ext)> {
    Seq::new(s.len(), |i: int| (s[i].0 as int, s[i].1@))
}

/// What the chain of a query reads.
pub open spec fn query_chain(
    rounds: Seq<CommitPhaseStepView>,
    betas: Seq<Challenge>,
    ros: Seq<(int, Ext)>,
    query_index: int,
    extra_bits: int,
    log_blowup: int,
    final_poly: Challenge,
) -> ChainInput {
    ChainInput {
        rounds,
        betas: evals_of(betas),
        ros,
        query_index,
        extra_bits: extra_bits as nat,
        log_blowup,
        final_poly: final_poly@,
    }
}

/// Where a chain stands, as it is walked.
#[derive(Debug, Clone, Copy)]
pub struct ChainCursor {
    pub index: usize,
    pub log_height: usize,
    pub eval: Challenge,
    pub joined: usize,
}

impl View for ChainCursor {
    type V = ChainState;

    open spec fn view(&self) -> ChainState {
        ChainState {
            index: self.index as int,
            log_height: self.log_height as int,
            eval: self.eval@,
            joined: self.joined as int,
        }
    }
}

impl ChainCursor {
    /// The start of a chain of `rounds` rounds.
    pub fn start(query_index: usize, extra_bits: usize, rounds: usize, log_blowup: usize) -> (r: Self)
        requires
            rounds + log_blowup <= usize::MAX,
        ensures
            r@ == (ChainState {
                index: shr(query_index as int, extra_bits as nat),
                log_height: rounds + log_blowup,
                eval: ezero(),
                joined: 0,
            }),
    {
        ChainCursor {
            index: shift_right(query_index, extra_bits),
            log_height: rounds + log_blowup,
            eval: Challenge::zero(),
            joined: 0,
        }
    }

    /// The pair folded in this round.
    pub fn pair(&self, reduced: &[(usize, Challenge)], sibling: Challenge) -> (r: (
        Challenge,
        Challenge,
    ))
        ensures
            (r.0@, r.1@) == round_pair(self@, ro_views(reduced@), sibling@),
    {
        let eval = if self.joined < reduced.len() && reduced[self.joined].0 == self.log_height {
            self.eval.plus(&reduced[self.joined].1)
        } else {
            self.eval
        };
        if self.index % 2 == 0 {
            (eval, sibling)
        } else {
            (sibling, eval)
        }
    }

    /// Whether this round's fold has a twiddle.
    pub fn foldable(&self) -> (r: bool)
        ensures
            r == x_fold_ok(self@.index / 2, self@.log_height - 1),
    {
        1 <= self.log_height && self.log_height <= 29 && (self.log_height > 1 || self.index / 2
            == 0)
    }

    /// The chain after this round.
    pub fn advance(
        &self,
        reduced: &[(usize, Challenge)],
        beta: Challenge,
        sibling: Challenge,
    ) -> (r: Self)
        requires
            x_fold_ok(self@.index / 2, self@.log_height - 1),
            self.joined <= reduced@.len(),
        ensures
            r@ == next_state(self@, ro_views(reduced@), beta@, sibling@),
            r.joined <= reduced@.len(),
    {
        let (v0, v1) = self.pair(reduced, sibling);
        let index: usize = self.index / 2;
        let log_height: usize = self.log_height - 1;
        let eval = fold_x_row(index, log_height, beta, v0, v1);
        let joined: usize = if self.joined < reduced.len() && reduced[self.joined].0
            == self.log_height {
            self.joined + 1
        } else {
            self.joined
        };
        ChainCursor { index, log_height, eval, joined }
    }
}

/// Whether every round folds pairs.
pub fn all_pairs(rounds: &Vec<CommitPhaseStepView>) -> (r: bool)
    ensures
        r == !(exists|i: int| 0 <= i < rounds@.len() && (#[trigger] rounds@[i]).log_arity != 1),
{
    let mut i: usize = 0;
    while i < rounds.len()
        invariant
            i <= rounds.len(),
            forall|j: int| 0 <= j < i ==> (#[trigger] rounds@[j]).log_arity == 1,
        decreases rounds.len() - i,
    {
        if rounds[i].log_arity != 1 {
            return false;
        }
        i += 1;
    }
    true
}

/// The commit-phase folds of a query, which must end in the final polynomial.
pub fn extract_query_fold_chain_forward(
    qp: &QueryProofView,
    betas: &[Challenge],
    query_index: usize,
    extra_bits: usize,
    log_blowup: usize,
    final_poly: Challenge,
    reduced: &[(usize, Challenge)],
    max_rounds: usize,
) -> (r: Result<Vec<FoldWitness>, FoldChainError>)
    requires
        qp.commit_phase_openings@.len() + log_blowup <= usize::MAX,
    ensures
        ({
            let c = query_chain(
                qp.commit_phase_openings@,
                betas@,
                ro_views(reduced@),
                query_index as int,
                extra_bits as int,
                log_blowup as int,
                final_poly,
            );
            match c.report(max_rounds) {
                Some(e) => r == Err::<Vec<FoldWitness>, FoldChainError>(e),
                None => r matches Ok(ws) && ws@.len() == c.rounds.len() && forall|i: int|
                    0 <= i < ws@.len() ==> c.is_witness(#[trigger] ws@[i], i),
            }
        }),
{
    let openings = &qp.commit_phase_openings;
    let ghost c = query_chain(
        qp.commit_phase_openings@,
        betas@,
        ro_views(reduced@),
        query_index as int,
        extra_bits as int,
        log_blowup as int,
        final_poly,
    );
    if openings.len() != betas.len() {
        return Err(FoldChainError::RoundCount);
    }
    if openings.len() > max_rounds {
        return Err(FoldChainError::TooManyRounds(openings.len()));
    }
    if !all_pairs(openings) {
        return Err(FoldChainError::Arity);
    }
    let mut index: usize = shift_right(query_index, extra_bits);
    let mut log_current: usize = openings.len() + log_blowup;
    let mut folded_eval = Challenge::zero();
    let mut joined: usize = 0;
    let mut witnesses: Vec<FoldWitness> = Vec::new();
    let ghost f = |r: int| c.round_report(r);
    let mut round: usize = 0;
    while round < openings.len()
        invariant
            round <= openings.len(),
            *openings == qp.commit_phase_openings,
            openings@ == c.rounds,
            openings.len() == betas.len(),
            openings@.len() <= max_rounds,
            !(exists|i: int| 0 <= i < c.rounds.len() && (#[trigger] c.rounds[i]).log_arity != 1),
            c == query_chain(
                qp.commit_phase_openings@,
                betas@,
                ro_views(reduced@),
                query_index as int,
                extra_bits as int,
                log_blowup as int,
                final_poly,
            ),
            f == (|r: int| c.round_report(r)),
            first_some(round as nat, f) is None,
            c.state(round as nat) == (ChainState {
                index: index as int,
                log_height: log_current as int,
                eval: folded_eval@,
                joined: joined as int,
            }),
            log_current == openings.len() - round + log_blowup,
            joined <= reduced@.len(),
            witnesses@.len() == round,
            forall|i: int| 0 <= i < round ==> c.is_witness(#[trigger] witnesses@[i], i),
        decreases openings.len() - round,
    {
        let ghost s = c.state(round as nat);
        if joined < reduced.len() && reduced[joined].0 == log_current {
            folded_eval = folded_eval.plus(&reduced[joined].1);
            joined += 1;
        }
        proof {
            assert(folded_eval@ == joined_eval(s, c.ros));
            assert(f(round as int) == c.round_report(round as int));
            assert(first_some((round + 1) as nat, f) == f(round as int));
            if f(round as int) is Some {
                lemma_first_some_stops((round + 1) as nat, c.rounds.len(), f);
            }
        }
        if openings[round].sibling_values.len() != 1 {
            return Err(FoldChainError::SiblingCount(round));
        }
        let sibling: Challenge = openings[round].sibling_values[0];
        let (v0, v1) = if index % 2 == 0 {
            (folded_eval, sibling)
        } else {
            (sibling, folded_eval)
        };
        let log_folded: usize = log_current - 1;
        index = index / 2;
        if log_folded > 28 || (log_folded == 0 && index != 0) {
            return Err(FoldChainError::Height(round));
        }
        let beta: Challenge = betas[round];
        let out = fold_x_row(index, log_folded, beta, v0, v1);
        let w = FoldWitness { index, log_folded_height: log_folded, beta, v0, v1 };
        proof {
            assert(evals_of(betas@)[round as int] == beta@);
            assert(c.is_witness(w, round as int));
        }
        witnesses.push(w);
        folded_eval = out;
        log_current = log_folded;
        round += 1;
    }
    if !folded_eval.same(&final_poly) {
        return Err(FoldChainError::FinalPoly);
    }
    if joined < reduced.len() {
        return Err(FoldChainError::UnusedOpenings);
    }
    Ok(witnesses)
}

/// Why a bundle was not made.
#[derive(Debug, Clone, PartialEq, Eq)]
pub enum FoldBindError {
    Replay(ReplayError),
    /// The challenges and the commit-phase rounds differ in number.
    BetaCount,
    MissingQuery,
    MissingIndex,
    Openings(RoError),
    TooManyFoldYs(usize),
    Chain(FoldChainError),
    Fold(FriFoldError),
}

/// What the reduction of the first query reads.
pub open spec fn query0(proof: StarkProofView, chal: AggFriChallenges) -> RoInput {
    RoInput { proof, chal, view: proof.opening_proof, query: 0 }
}

/// The folded openings of a query, highest first.
pub open spec fn folded_openings(ri: RoInput) -> Seq<(int, Ext)> {
    let n = ri.sums().len();
    Seq::new(n, |k: int| (ri.sums()[n - 1 - k].0 - 1, ri.folded(n - 1 - k)))
}

/// The chain of a query.
pub open spec fn ri_chain(ri: RoInput) -> ChainInput {
    let fri = ri.view.fri_proof;
    query_chain(
        fri.query_proofs@[ri.query].commit_phase_openings@,
        ri.chal.betas@,
        folded_openings(ri),
        ri.query_index(),
        ri.chal.extra_query_index_bits as int,
        ri.chal.log_blowup as int,
        fri.final_poly,
    )
}

/// The chain of the first query.
pub open spec fn query0_chain(proof: StarkProofView, chal: AggFriChallenges) -> ChainInput {
    ri_chain(query0(proof, chal))
}

/// Why the folds of the first query cannot be made from its challenges, if so.
pub open spec fn bundle_report(proof: StarkProofView, chal: AggFriChallenges) -> Option<FoldBindError> {
    let fri = proof.opening_proof.fri_proof;
    let ri = query0(proof, chal);
    if chal.betas@.len() != fri.commit_phase_commits@.len() {
        Some(FoldBindError::BetaCount)
    } else if fri.query_proofs@.len() == 0 {
        Some(FoldBindError::MissingQuery)
    } else if chal.query_indices@.len() == 0 {
        Some(FoldBindError::MissingIndex)
    } else if ri.report(AGG_WIDTH) is Some {
        Some(FoldBindError::Openings(ri.report(AGG_WIDTH)->0))
    } else {
        None
    }
}

/// The outcome of proving fold `k` of the first layer.
pub open spec fn fold_y_outcome<
    F: Fn(&FriFoldAir, &RowMajorMatrix, &[Val]) -> Result<Vec<u8>, String>,
>(prover: F, ri: RoInput, k: int, r: Result<FriFoldStepProof, FriFoldError>) -> bool {
    fold_prove_outcome(
        prover,
        FoldAxis::Y,
        ri.fold_index(k),
        ri.sums()[k].0 - 1,
        ri.chal.bivariate_beta@,
        ri.pair(k).0,
        ri.pair(k).1,
        r,
    )
}

/// The outcome of proving the fold of commit-phase round `k`.
pub open spec fn fold_x_outcome<
    F: Fn(&FriFoldAir, &RowMajorMatrix, &[Val]) -> Result<Vec<u8>, String>,
>(prover: F, c: ChainInput, k: int, r: Result<FriFoldStepProof, FriFoldError>) -> bool {
    let s = c.state(k as nat);
    let pair = round_pair(s, c.ros, c.rounds[k].sibling_values@[0]@);
    fold_prove_outcome(
        prover,
        FoldAxis::X,
        s.index / 2,
        s.log_height - 1,
        c.betas[k],
        pair.0,
        pair.1,
        r,
    )
}

/// What making the folds of the first query from its challenges returns.
pub open spec fn bundle_outcome<
    F: Fn(&FriFoldAir, &RowMajorMatrix, &[Val]) -> Result<Vec<u8>, String>,
>(
    prover: F,
    proof: StarkProofView,
    chal: AggFriChallenges,
    r: Result<AggFriFoldBundle, FoldBindError>,
) -> bool {
    let ri = query0(proof, chal);
    let c = query0_chain(proof, chal);
    match bundle_report(proof, chal) {
        Some(e) => r == Err::<AggFriFoldBundle, FoldBindError>(e),
        None => match r {
            Ok(b) => {
                &&& c.report(AGG_FRI_MAX_ROUNDS) is None
                &&& b.fold_ys@.len() == ri.sums().len()
                &&& forall|k: int|
                    0 <= k < b.fold_ys@.len() ==> fold_y_outcome(
                        prover,
                        ri,
                        k,
                        Ok(#[trigger] b.fold_ys@[k]),
                    )
                &&& b.fold_xs@.len() == c.rounds.len()
                &&& forall|k: int|
                    0 <= k < b.fold_xs@.len() ==> fold_x_outcome(
                        prover,
                        c,
                        k,
                        Ok(#[trigger] b.fold_xs@[k]),
                    )
            },
            Err(FoldBindError::Chain(e)) => c.report(AGG_FRI_MAX_ROUNDS) == Some(e),
            Err(FoldBindError::Fold(e)) => {
                ||| exists|k: int|
                    0 <= k < ri.sums().len() && #[trigger] fold_y_outcome(prover, ri, k, Err(e))
                ||| c.report(AGG_FRI_MAX_ROUNDS) is None && exists|k: int|
                    0 <= k < c.rounds.len() && #[trigger] fold_x_outcome(prover, c, k, Err(e))
            },
            Err(_) => false,
        },
    }
}

/// Proves the folds of the first query, given the challenges.
pub fn fri_fold_bundle_with_challenges<
    F: Fn(&FriFoldAir, &RowMajorMatrix, &[Val]) -> Result<Vec<u8>, String>,
>(proof: &StarkProofView, chal: &AggFriChallenges, prover: &F) -> (r: Result<
    AggFriFoldBundle,
    FoldBindError,
>)
    requires
        prover_ready::<FriFoldAir, F>(*prover),
        proof.opening_proof.fri_proof.commit_phase_commits@.len() + chal.log_blowup + 1
            <= usize::MAX,
        proof.opening_proof.fri_proof.query_proofs@.len() > 0
            ==> proof.opening_proof.fri_proof.query_proofs@[0].commit_phase_openings@.len()
            + chal.log_blowup <= usize::MAX,
    ensures
        bundle_outcome(*prover, *proof, *chal, r),
{
    let view = decode_pcs_view(proof);
    let fri = &view.fri_proof;
    let ghost ri = query0(*proof, *chal);
    let ghost c = query0_chain(*proof, *chal);
    if chal.betas.len() != fri.commit_phase_commits.len() {
        return Err(FoldBindError::BetaCount);
    }
    if fri.query_proofs.len() == 0 {
        return Err(FoldBindError::MissingQuery);
    }
    if chal.query_indices.len() == 0 {
        return Err(FoldBindError::MissingIndex);
    }
    let query_index: usize = chal.query_indices[0];
    let (reduced, y_wits) = match reconstruct_agg_query_ro(proof, chal, view, 0) {
        Ok(x) => x,
        Err(e) => {
            return Err(FoldBindError::Openings(e));
        },
    };
    proof {
        assert(ri.sums().len() <= 2);
    }
    if y_wits.len() > AGG_FRI_MAX_FOLD_YS {
        return Err(FoldBindError::TooManyFoldYs(y_wits.len()));
    }
    let mut fold_ys: Vec<FriFoldStepProof> = Vec::new();
    let mut k: usize = 0;
    while k < y_wits.len()
        invariant
            k <= y_wits.len(),
            prover_ready::<FriFoldAir, F>(*prover),
            ri == query0(*proof, *chal),
            ri.is_result(reduced@, y_wits@),
            bundle_report(*proof, *chal) is None,
            fold_ys@.len() == k,
            forall|j: int|
                0 <= j < k ==> fold_y_outcome(*prover, ri, j, Ok(#[trigger] fold_ys@[j])),
        decreases y_wits.len() - k,
    {
        let w = &y_wits[k];
        proof {
            assert(y_wits@[k as int].index == ri.fold_index(k as int));
        }
        match generate_fri_fold_y_proof(
            w.index,
            w.log_folded_height,
            w.beta,
            w.v0,
            w.v1,
            prover,
        ) {
            Ok(s) => {
                fold_ys.push(s);
            },
            Err(e) => {
                proof {
                    assert(fold_y_outcome(*prover, ri, k as int, Err(e)));
                }
                return Err(FoldBindError::Fold(e));
            },
        }
        k += 1;
    }
    proof {
        assert(ro_views(reduced@) =~= folded_openings(ri));
    }
    let x_wits = match extract_query_fold_chain_forward(
        &fri.query_proofs[0],
        chal.betas.as_slice(),
        query_index,
        chal.extra_query_index_bits,
        chal.log_blowup,
        fri.final_poly,
        reduced.as_slice(),
        AGG_FRI_MAX_ROUNDS,
    ) {
        Ok(ws) => ws,
        Err(e) => {
            return Err(FoldBindError::Chain(e));
        },
    };
    let mut fold_xs: Vec<FriFoldStepProof> = Vec::new();
    let mut k: usize = 0;
    while k < x_wits.len()
        invariant
            k <= x_wits.len(),
            prover_ready::<FriFoldAir, F>(*prover),
            c == query0_chain(*proof, *chal),
            c.report(AGG_FRI_MAX_ROUNDS) is None,
            bundle_report(*proof, *chal) is None,
            x_wits@.len() == c.rounds.len(),
            forall|i: int| 0 <= i < x_wits@.len() ==> c.is_witness(#[trigger] x_wits@[i], i),
            fold_xs@.len() == k,
            forall|j: int|
                0 <= j < k ==> fold_x_outcome(*prover, c, j, Ok(#[trigger] fold_xs@[j])),
        decreases x_wits.len() - k,
    {
        let w = x_wits[k];
        proof {
            assert(c.is_witness(x_wits@[k as int], k as int));
        }
        match generate_fri_fold_proof(w.index, w.log_folded_height, w.beta, w.v0, w.v1, prover) {
            Ok(s) => {
                fold_xs.push(s);
            },
            Err(e) => {
                proof {
                    assert(fold_x_outcome(*prover, c, k as int, Err(e)));
                }
                return Err(FoldBindError::Fold(e));
            },
        }
        k += 1;
    }
    Ok(AggFriFoldBundle { fold_ys, fold_xs })
}

/// A bundle's commit-phase folds use the challenges in order, and the last one ends in the
/// final polynomial.
pub proof fn lemma_bundle_reaches_final_poly<
    F: Fn(&FriFoldAir, &RowMajorMatrix, &[Val]) -> Result<Vec<u8>, String>,
>(prover: F, proof: StarkProofView, chal: AggFriChallenges, b: AggFriFoldBundle)
    requires
        bundle_outcome(prover, proof, chal, Ok(b)),
        b.fold_xs@.len() > 0,
    ensures
        b.fold_xs@.len() == chal.betas@.len(),
        forall|k: int|
            0 <= k < b.fold_xs@.len() ==> (#[trigger] b.fold_xs@[k]).beta() == chal.betas@[k]@,
        forall|k: int|
            0 <= k < b.fold_ys@.len() ==> (#[trigger] b.fold_ys@[k]).beta()
                == chal.bivariate_beta@,
        b.fold_xs@.last().out() == proof.opening_proof.fri_proof.final_poly@,
{
    let c = query0_chain(proof, chal);
    let ri = query0(proof, chal);
    let n = b.fold_xs@.len();
    assert(c.report(AGG_FRI_MAX_ROUNDS) is None);
    assert(n == c.rounds.len());
    assert forall|k: int| 0 <= k < n implies (#[trigger] b.fold_xs@[k]).beta() == chal.betas@[k]@ by {
        assert(fold_x_outcome(prover, c, k, Ok(b.fold_xs@[k])));
    }
    assert forall|k: int| 0 <= k < b.fold_ys@.len() implies (#[trigger] b.fold_ys@[k]).beta()
        == chal.bivariate_beta@ by {
        assert(fold_y_outcome(prover, ri, k, Ok(b.fold_ys@[k])));
    }
    assert(fold_x_outcome(prover, c, n - 1, Ok(b.fold_xs@[n - 1])));
    assert(c.state(n).eval == b.fold_xs@[n - 1].out());
}

/// What making the folds of the first query of a proof returns.
pub open spec fn agg_bundle_outcome<
    F: Fn(&FriFoldAir, &RowMajorMatrix, &[Val]) -> Result<Vec<u8>, String>,
>(
    prover: F,
    proof: StarkProofView,
    params: FriParamsView,
    r: Result<AggFriFoldBundle, FoldBindError>,
) -> bool {
    match replay_report(proof, AGG_WIDTH, params) {
        Some(e) => r == Err::<AggFriFoldBundle, FoldBindError>(FoldBindError::Replay(e)),
        None => exists|chal: AggFriChallenges| #[trigger]
            is_replay(chal, proof, params) && bundle_outcome(prover, proof, chal, r),
    }
}

/// Proves the folds of the first query of an aggregation proof.
pub fn fri_fold_bundle_from_agg_proof<
    F: Fn(&FriFoldAir, &RowMajorMatrix, &[Val]) -> Result<Vec<u8>, String>,
>(proof: &StarkProofView, params: &FriParamsView, prover: &F) -> (r: Result<
    AggFriFoldBundle,
    FoldBindError,
>)
    requires
        params_ok(*params),
        prover_ready::<FriFoldAir, F>(*prover),
        proof.opening_proof.fri_proof.commit_phase_commits@.len() + params.log_blowup + 1
            <= usize::MAX,
        proof.opening_proof.fri_proof.query_proofs@.len() > 0
            ==> proof.opening_proof.fri_proof.query_proofs@[0].commit_phase_openings@.len()
            + params.log_blowup <= usize::MAX,
    ensures
        agg_bundle_outcome(*prover, *proof, *params, r),
{
    let chal = match replay_agg_fri_challenges(proof, params) {
        Ok(c) => c,
        Err(e) => {
            return Err(FoldBindError::Replay(e));
        },
    };
    proof {
        assert(is_replay(chal, *proof, *params));
    }
    fri_fold_bundle_with_challenges(proof, &chal, prover)
}

/// The commit-phase folds of the first query of an aggregation proof.
pub fn fri_fold_steps_from_agg_proof<
    F: Fn(&FriFoldAir, &RowMajorMatrix, &[Val]) -> Result<Vec<u8>, String>,
>(proof: &StarkProofView, params: &FriParamsView, prover: &F) -> (r: Result<
    Vec<FriFoldStepProof>,
    FoldBindError,
>)
    requires
        params_ok(*params),
        prover_ready::<FriFoldAir, F>(*prover),
        proof.opening_proof.fri_proof.commit_phase_commits@.len() + params.log_blowup + 1
            <= usize::MAX,
        proof.opening_proof.fri_proof.query_proofs@.len() > 0
            ==> proof.opening_proof.fri_proof.query_proofs@[0].commit_phase_openings@.len()
            + params.log_blowup <= usize::MAX,
    ensures
        exists|b: Result<AggFriFoldBundle, FoldBindError>| #[trigger]
            agg_bundle_outcome(*prover, *proof, *params, b) && (match b {
                Ok(bundle) => r == Ok::<Vec<FriFoldStepProof>, FoldBindError>(bundle.fold_xs),
                Err(e) => r == Err::<Vec<FriFoldStepProof>, FoldBindError>(e),
            }),
{
    let b = fri_fold_bundle_from_agg_proof(proof, params, prover);
    proof {
        assert(agg_bundle_outcome(*prover, *proof, *params, b));
    }
    match b {
        Ok(bundle) => Ok(bundle.fold_xs),
        Err(e) => Err(e),
    }
}

} // verus!
