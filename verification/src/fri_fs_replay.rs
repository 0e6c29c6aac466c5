//! Replay of the challenges of a proof.
//!
//! The transcript absorbs the degree, the trace roots, the quotient roots, the opened values,
//! the first-layer roots, every commit-phase root and the final polynomial, and the challenges
//! are drawn in between. Openings are not checked here.
use vstd::prelude::*;

use crate::agg_constraints::AGG_WIDTH;
use crate::air::REC_AGG_WIDTH;
use crate::bits::{exp2, pow2_usize};
use crate::checks::{first_some, lemma_first_some_stops};
use crate::devnet::DEVNET_FRI_NUM_QUERIES;
use crate::ext::Challenge;
use crate::field::{vals, Val, P};
use crate::keccak256_air::same_digest;
use crate::merkle::path_root;
use crate::merkle_keccak::{hash_val_leaf, merkle_root_from_path};
use crate::merkle_poseidon2::{poseidon_leaf, poseidon_pair};
use crate::pcs_view::{CirclePcsProofView, CommitPhaseStepView, FriParamsView, StarkProofView};
use crate::transcript::{
    absorbed_base, challenge_after, drawn_bits, drew_bits, drew_challenge, transcript_log,
    with_element, with_elements, with_roots, with_work, work_valid, Transcript,
};

verus! {

/// The challenges of a proof.
#[derive(Debug, Clone)]
pub struct AggFriChallenges {
    /// Combines the constraints.
    pub constraint_alpha: Challenge,
    /// The evaluation point outside the domain, by its projective coordinate.
    pub zeta: Challenge,
    /// Combines the opened columns.
    pub batch_alpha: Challenge,
    /// The challenge of the first, ordinate fold.
    pub bivariate_beta: Challenge,
    /// The challenges of the later folds.
    pub betas: Vec<Challenge>,
    pub query_indices: Vec<usize>,
    /// `log_blowup` plus the sum of the round arities.
    pub fri_log_max_height: usize,
    pub log_blowup: usize,
    pub extra_query_index_bits: usize,
}

/// Why an index could not be recovered.
#[derive(Debug, Clone, Copy, PartialEq, Eq)]
pub enum RecoverError {
    DepthTooLarge,
    NoMatch,
    ManyMatches,
}

/// Why a proof's challenges could not be replayed.
#[derive(Debug, Clone, PartialEq, Eq)]
pub enum ReplayError {
    ZeroWidth,
    Randomized,
    Preprocessed,
    MissingTraceNext,
    TraceWidth,
    QueryCount(usize),
    CommitPowCount,
    CommitPow,
    QueryPow,
    LogArity,
    /// The query indices have too many bits to be drawn.
    IndexBits,
    EmptyTraceRoots,
    MissingTraceRow(usize),
    TraceRowWidth(usize),
    Recovery(usize, RecoverError),
}

/// The opening proof inside a proof.
pub fn decode_pcs_view(proof: &StarkProofView) -> (r: &CirclePcsProofView)
    ensures
        *r == proof.opening_proof,
{
    &proof.opening_proof
}

/// A proof holds an acceptable number of queries.
pub open spec fn query_count_ok(p: StarkProofView) -> bool {
    0 < p.opening_proof.fri_proof.query_proofs@.len() <= DEVNET_FRI_NUM_QUERIES
}

/// The number of queries a proof holds.
pub fn fri_queries_from_proof(proof: &StarkProofView) -> (r: Result<usize, ReplayError>)
    ensures
        ({
            let n = proof.opening_proof.fri_proof.query_proofs@.len();
            if query_count_ok(*proof) {
                r == Ok::<usize, ReplayError>(n as usize)
            } else {
                r == Err::<usize, ReplayError>(ReplayError::QueryCount(n as usize))
            }
        }),
{
    let n: usize = proof.opening_proof.fri_proof.query_proofs.len();
    if n == 0 || n > DEVNET_FRI_NUM_QUERIES {
        return Err(ReplayError::QueryCount(n));
    }
    Ok(n)
}

/// The path of `row` at `index` leads to `root` in the production tree.
pub open spec fn leads_to(row: Seq<Val>, siblings: Seq<[u8; 32]>, root: Seq<u8>, index: int) -> bool {
    path_root(poseidon_pair(), poseidon_leaf(vals(row)), siblings, index) == root
}

/// Why no single index leads to `root`, if so.
pub open spec fn recover_report(
    row: Seq<Val>,
    siblings: Seq<[u8; 32]>,
    root: Seq<u8>,
) -> Option<RecoverError> {
    let depth = siblings.len() as u32;
    if depth >= usize::BITS {
        Some(RecoverError::DepthTooLarge)
    } else if exists|i: int, j: int|
        0 <= i < j < exp2(depth as nat) && #[trigger] leads_to(row, siblings, root, i)
            && #[trigger] leads_to(row, siblings, root, j) {
        Some(RecoverError::ManyMatches)
    } else if exists|i: int| 0 <= i < exp2(depth as nat) && leads_to(row, siblings, root, i) {
        None
    } else {
        Some(RecoverError::NoMatch)
    }
}

/// The index that leads to `root`.
pub open spec fn recovered_index(row: Seq<Val>, siblings: Seq<[u8; 32]>, root: Seq<u8>) -> int {
    choose|i: int|
        0 <= i < exp2((siblings.len() as u32) as nat) && leads_to(row, siblings, root, i)
}

proof fn lemma_exp2_fits(k: nat)
    requires
        k < usize::BITS,
    ensures
        exp2(k) <= usize::MAX,
{
    if usize::BITS == 32 {
        crate::bits::lemma_exp2_monotone(k, 31);
        reveal_with_fuel(exp2, 32);
    } else {
        crate::bits::lemma_exp2_monotone(k, 63);
        reveal_with_fuel(exp2, 64);
    }
}

/// The one index whose path leads to `expected_root`.
pub fn recover_same_height_query_index(
    trace_row: &[Val],
    siblings: &[[u8; 32]],
    expected_root: &[u8; 32],
) -> (r: Result<usize, RecoverError>)
    ensures
        match recover_report(trace_row@, siblings@, expected_root@) {
            Some(e) => r == Err::<usize, RecoverError>(e),
            None => r matches Ok(i) && i == recovered_index(
                trace_row@,
                siblings@,
                expected_root@,
            ),
        },
{
    let leaf = hash_val_leaf(trace_row);
    let depth: u32 = siblings.len() as u32;
    if depth >= usize::BITS {
        return Err(RecoverError::DepthTooLarge);
    }
    proof {
        lemma_exp2_fits(depth as nat);
    }
    let count: usize = pow2_usize(depth as usize);
    let mut found: Option<usize> = None;
    let mut index: usize = 0;
    while index < count
        invariant
            index <= count,
            count == exp2(depth as nat),
            depth == siblings@.len() as u32,
            depth < usize::BITS,
            leaf@ == poseidon_leaf(vals(trace_row@)),
            found is None ==> forall|i: int|
                0 <= i < index ==> !#[trigger] leads_to(trace_row@, siblings@, expected_root@, i),
            found matches Some(k) ==> k < index && leads_to(
                trace_row@,
                siblings@,
                expected_root@,
                k as int,
            ) && forall|i: int|
                0 <= i < index && i != k ==> !#[trigger] leads_to(
                    trace_row@,
                    siblings@,
                    expected_root@,
                    i,
                ),
        decreases count - index,
    {
        let root = merkle_root_from_path(leaf, siblings, index);
        if same_digest(&root, expected_root) {
            proof {
                assert(leads_to(trace_row@, siblings@, expected_root@, index as int));
            }
            if let Some(k) = found {
                proof {
                    assert(leads_to(trace_row@, siblings@, expected_root@, k as int));
                    assert(0 <= k < index < exp2(depth as nat));
                }
                return Err(RecoverError::ManyMatches);
            }
            found = Some(index);
        }
        index += 1;
    }
    match found {
        Some(k) => {
            proof {
                assert(leads_to(trace_row@, siblings@, expected_root@, k as int));
                let c = recovered_index(trace_row@, siblings@, expected_root@);
                assert(0 <= c < count && leads_to(trace_row@, siblings@, expected_root@, c));
                assert(c == k);
            }
            Ok(k)
        },
        None => Err(RecoverError::NoMatch),
    }
}

// ---- what the transcript has absorbed when each challenge is drawn ----

/// Before the constraint challenge.
pub open spec fn log_trace(p: StarkProofView) -> Seq<Seq<int>> {
    let d = absorbed_base(p.degree_bits as int % P as int);
    with_roots(seq![d, d, absorbed_base(0)], p.trace_commitment@)
}

/// Before the evaluation point.
pub open spec fn log_quotient(p: StarkProofView) -> Seq<Seq<int>> {
    with_roots(log_trace(p).push(drew_challenge()), p.quotient_commitment@)
}

/// After absorbing `n` quotient chunks.
pub open spec fn with_chunks(log: Seq<Seq<int>>, chunks: Seq<Vec<Challenge>>, n: nat) -> Seq<
    Seq<int>,
>
    decreases n,
{
    if n == 0 {
        log
    } else {
        let c = chunks[n - 1]@;
        with_elements(with_chunks(log, chunks, (n - 1) as nat), c, c.len())
    }
}

/// Before the column challenge.
pub open spec fn log_opened(p: StarkProofView) -> Seq<Seq<int>> {
    let next = p.trace_next->0@;
    let l = with_elements(
        log_quotient(p).push(drew_challenge()),
        p.trace_local@,
        p.trace_local@.len(),
    );
    with_chunks(
        with_elements(l, next, next.len()),
        p.quotient_chunks@,
        p.quotient_chunks@.len(),
    )
}

/// Before the first fold challenge.
pub open spec fn log_first_layer(p: StarkProofView) -> Seq<Seq<int>> {
    with_roots(
        log_opened(p).push(drew_challenge()),
        p.opening_proof.first_layer_commitment@,
    )
}

/// After `k` commit-phase rounds.
pub open spec fn log_rounds(p: StarkProofView, bits: nat, k: nat) -> Seq<Seq<int>>
    decreases k,
{
    let fri = p.opening_proof.fri_proof;
    if k == 0 {
        log_first_layer(p).push(drew_challenge())
    } else {
        with_work(
            with_roots(
                log_rounds(p, bits, (k - 1) as nat),
                fri.commit_phase_commits@[k - 1]@,
            ),
            bits,
            fri.commit_pow_witnesses@[k - 1]@,
        ).push(drew_challenge())
    }
}

/// In round `k`, before its proof of work.
pub open spec fn log_round_root(p: StarkProofView, bits: nat, k: nat) -> Seq<Seq<int>> {
    with_roots(
        log_rounds(p, bits, k),
        p.opening_proof.fri_proof.commit_phase_commits@[k as int]@,
    )
}

/// In round `k`, before its challenge.
pub open spec fn log_round_worked(p: StarkProofView, bits: nat, k: nat) -> Seq<Seq<int>> {
    with_work(
        log_round_root(p, bits, k),
        bits,
        p.opening_proof.fri_proof.commit_pow_witnesses@[k as int]@,
    )
}

/// The proof of work of round `k` is valid.
pub open spec fn round_work_ok(p: StarkProofView, bits: nat, k: nat) -> bool {
    work_valid(
        log_round_root(p, bits, k),
        bits,
        p.opening_proof.fri_proof.commit_pow_witnesses@[k as int]@,
    )
}

/// After the final polynomial.
pub open spec fn log_final(p: StarkProofView, params: FriParamsView) -> Seq<Seq<int>> {
    let fri = p.opening_proof.fri_proof;
    with_element(
        log_rounds(
            p,
            params.commit_proof_of_work_bits as nat,
            fri.commit_phase_commits@.len(),
        ),
        fri.final_poly@,
    )
}

/// After `q` query indices of `index_bits` bits.
pub open spec fn log_queries(
    p: StarkProofView,
    params: FriParamsView,
    index_bits: nat,
    q: nat,
) -> Seq<Seq<int>>
    decreases q,
{
    if q == 0 {
        with_work(
            log_final(p, params),
            params.query_proof_of_work_bits as nat,
            p.opening_proof.fri_proof.pow_witness@,
        )
    } else {
        log_queries(p, params, index_bits, (q - 1) as nat).push(drew_bits(index_bits))
    }
}

/// The rounds of the first query.
pub open spec fn first_rounds(p: StarkProofView) -> Seq<CommitPhaseStepView> {
    let qs = p.opening_proof.fri_proof.query_proofs@;
    if qs.len() == 0 {
        Seq::empty()
    } else {
        qs[0].commit_phase_openings@
    }
}

/// Every round has an arity in range.
pub open spec fn arities_ok(rounds: Seq<CommitPhaseStepView>, max_log_arity: usize) -> bool {
    forall|i: int|
        0 <= i < rounds.len() ==> 0 < (#[trigger] rounds[i]).log_arity <= max_log_arity
}

/// The sum of the arities of the first `n` rounds.
pub open spec fn arity_sum(rounds: Seq<CommitPhaseStepView>, n: nat) -> int
    decreases n,
{
    if n == 0 {
        0
    } else {
        arity_sum(rounds, (n - 1) as nat) + rounds[n - 1].log_arity
    }
}

/// The height of the first folded codeword.
pub open spec fn folded_height(p: StarkProofView, params: FriParamsView) -> int {
    arity_sum(first_rounds(p), first_rounds(p).len()) + params.log_blowup
}

/// The number of bits of a query index.
pub open spec fn index_bits(p: StarkProofView, params: FriParamsView) -> int {
    folded_height(p, params) + 1
}

/// Query `q` as it was drawn.
pub open spec fn drawn_index(p: StarkProofView, params: FriParamsView, q: nat) -> int {
    let bits = index_bits(p, params) as nat;
    drawn_bits(log_queries(p, params, bits, q), bits)
}

/// The trace rows are opened at the height at which indices are drawn.
pub open spec fn same_height_queries(p: StarkProofView, params: FriParamsView) -> bool {
    p.degree_bits + params.log_blowup == index_bits(p, params)
}

/// Query `q` opens a trace row.
pub open spec fn has_trace_row(p: StarkProofView, q: int) -> bool {
    let input = p.opening_proof.fri_proof.query_proofs@[q].input_proof.input_openings@;
    input.len() > 0 && input[0].opened_values@.len() > 0
}

/// The trace row opened by query `q`.
pub open spec fn query_trace_row(p: StarkProofView, q: int) -> Seq<Val> {
    p.opening_proof.fri_proof.query_proofs@[q].input_proof.input_openings@[0].opened_values@[0]@
}

/// The path of the trace row opened by query `q`.
pub open spec fn query_trace_path(p: StarkProofView, q: int) -> Seq<[u8; 32]> {
    p.opening_proof.fri_proof.query_proofs@[q].input_proof.input_openings@[0].opening_proof@
}

/// The drawn index of query `q` is the one its trace row was opened at.
pub open spec fn drawn_index_leads(p: StarkProofView, params: FriParamsView, q: int) -> bool {
    leads_to(
        query_trace_row(p, q),
        query_trace_path(p, q),
        p.trace_commitment@[0]@,
        drawn_index(p, params, q as nat),
    )
}

/// Why the index of query `q` cannot be settled, if so.
pub open spec fn query_report(
    p: StarkProofView,
    width: usize,
    params: FriParamsView,
    q: int,
) -> Option<ReplayError> {
    if !has_trace_row(p, q) {
        Some(ReplayError::MissingTraceRow(q as usize))
    } else if query_trace_row(p, q).len() != width {
        Some(ReplayError::TraceRowWidth(q as usize))
    } else if drawn_index_leads(p, params, q) {
        None
    } else {
        match recover_report(
            query_trace_row(p, q),
            query_trace_path(p, q),
            p.trace_commitment@[0]@,
        ) {
            Some(e) => Some(ReplayError::Recovery(q as usize, e)),
            None => None,
        }
    }
}

/// The settled index of query `q`.
pub open spec fn query_index(p: StarkProofView, params: FriParamsView, q: int) -> int {
    if same_height_queries(p, params) && !drawn_index_leads(p, params, q) {
        recovered_index(
            query_trace_row(p, q),
            query_trace_path(p, q),
            p.trace_commitment@[0]@,
        )
    } else {
        drawn_index(p, params, q as nat)
    }
}

/// Why the shape of a proof does not allow a replay, if so.
pub open spec fn replay_shape_report(p: StarkProofView, width: usize) -> Option<ReplayError> {
    let fri = p.opening_proof.fri_proof;
    if width == 0 {
        Some(ReplayError::ZeroWidth)
    } else if p.randomized {
        Some(ReplayError::Randomized)
    } else if p.preprocessed {
        Some(ReplayError::Preprocessed)
    } else if p.trace_next is None {
        Some(ReplayError::MissingTraceNext)
    } else if p.trace_local@.len() != width || p.trace_next->0@.len() != width {
        Some(ReplayError::TraceWidth)
    } else if !query_count_ok(p) {
        Some(ReplayError::QueryCount(fri.query_proofs@.len() as usize))
    } else if fri.commit_pow_witnesses@.len() != fri.commit_phase_commits@.len() {
        Some(ReplayError::CommitPowCount)
    } else {
        None
    }
}

/// Why a proof's challenges cannot be replayed, if so.
pub open spec fn replay_report(p: StarkProofView, width: usize, params: FriParamsView) -> Option<
    ReplayError,
> {
    let fri = p.opening_proof.fri_proof;
    if replay_shape_report(p, width) is Some {
        replay_shape_report(p, width)
    } else if exists|k: nat|
        k < fri.commit_phase_commits@.len() && !#[trigger] round_work_ok(
            p,
            params.commit_proof_of_work_bits as nat,
            k,
        ) {
        Some(ReplayError::CommitPow)
    } else if !work_valid(
        log_final(p, params),
        params.query_proof_of_work_bits as nat,
        fri.pow_witness@,
    ) {
        Some(ReplayError::QueryPow)
    } else if !arities_ok(first_rounds(p), params.max_log_arity) {
        Some(ReplayError::LogArity)
    } else if index_bits(p, params) > 30 {
        Some(ReplayError::IndexBits)
    } else if p.trace_commitment@.len() == 0 {
        Some(ReplayError::EmptyTraceRoots)
    } else if same_height_queries(p, params) {
        first_some(fri.query_proofs@.len(), |q: int| query_report(p, width, params, q))
    } else {
        None
    }
}

/// `c` holds the challenges of `p`.
pub open spec fn is_replay(c: AggFriChallenges, p: StarkProofView, params: FriParamsView) -> bool {
    let fri = p.opening_proof.fri_proof;
    &&& c.constraint_alpha@ == challenge_after(log_trace(p))
    &&& c.zeta@ == challenge_after(log_quotient(p))
    &&& c.batch_alpha@ == challenge_after(log_opened(p))
    &&& c.bivariate_beta@ == challenge_after(log_first_layer(p))
    &&& c.betas@.len() == fri.commit_phase_commits@.len()
    &&& forall|k: int|
        0 <= k < c.betas@.len() ==> (#[trigger] c.betas@[k])@ == challenge_after(
            log_round_worked(p, params.commit_proof_of_work_bits as nat, k as nat),
        )
    &&& c.query_indices@.len() == fri.query_proofs@.len()
    &&& forall|q: int|
        0 <= q < c.query_indices@.len() ==> (#[trigger] c.query_indices@[q]) == query_index(
            p,
            params,
            q,
        )
    &&& forall|q: nat|
        q < c.query_indices@.len() ==> 0 <= #[trigger] drawn_index(p, params, q) < exp2(
            index_bits(p, params) as nat,
        )
    &&& c.fri_log_max_height == folded_height(p, params)
    &&& c.log_blowup == params.log_blowup
    &&& c.extra_query_index_bits == 1
}

/// Parameters a transcript can draw bits for.
pub open spec fn params_ok(params: FriParamsView) -> bool {
    &&& params.commit_proof_of_work_bits <= 30
    &&& params.query_proof_of_work_bits <= 30
}

/// Absorbs quotient chunks in order.
fn observe_chunks(t: &mut Transcript, chunks: &Vec<Vec<Challenge>>)
    ensures
        transcript_log(*final(t)) == with_chunks(
            transcript_log(*old(t)),
            chunks@,
            chunks@.len(),
        ),
{
    let ghost start = transcript_log(*t);
    let mut i: usize = 0;
    while i < chunks.len()
        invariant
            i <= chunks.len(),
            transcript_log(*t) == with_chunks(start, chunks@, i as nat),
        decreases chunks.len() - i,
    {
        t.observe_elements(chunks[i].as_slice());
        i += 1;
    }
}

proof fn lemma_arity_sum(rounds: Seq<CommitPhaseStepView>, m: nat, n: nat)
    requires
        m <= n,
    ensures
        0 <= arity_sum(rounds, m) <= arity_sum(rounds, n),
    decreases n,
{
    if n > 0 {
        if m < n {
            lemma_arity_sum(rounds, m, (n - 1) as nat);
        } else {
            lemma_arity_sum(rounds, (n - 1) as nat, (n - 1) as nat);
        }
    }
}

/// Whether every round has an arity in range.
fn check_arities(rounds: &Vec<CommitPhaseStepView>, max_log_arity: usize) -> (r: bool)
    ensures
        r == arities_ok(rounds@, max_log_arity),
{
    let mut i: usize = 0;
    while i < rounds.len()
        invariant
            i <= rounds.len(),
            forall|j: int| 0 <= j < i ==> 0 < (#[trigger] rounds@[j]).log_arity <= max_log_arity,
        decreases rounds.len() - i,
    {
        let a: usize = rounds[i].log_arity as usize;
        if a == 0 || a > max_log_arity {
            proof {
                assert(rounds@[i as int].log_arity == a);
            }
            return false;
        }
        i += 1;
    }
    true
}

/// The sum of the arities and the blowup, where it leaves room for an index bit.
fn sum_arities(rounds: &Vec<CommitPhaseStepView>, log_blowup: usize) -> (r: Option<usize>)
    ensures
        ({
            let h = arity_sum(rounds@, rounds@.len()) + log_blowup;
            match r {
                Some(v) => v == h && log_blowup <= v <= 29,
                None => h > 29,
            }
        }),
{
    proof {
        lemma_arity_sum(rounds@, 0, rounds@.len());
    }
    if log_blowup > 29 {
        return None;
    }
    let mut total: usize = log_blowup;
    let mut i: usize = 0;
    while i < rounds.len()
        invariant
            i <= rounds.len(),
            total == log_blowup + arity_sum(rounds@, i as nat),
            log_blowup <= total,
            total <= 29,
        decreases rounds.len() - i,
    {
        total = total + rounds[i].log_arity as usize;
        i += 1;
        if total > 29 {
            proof {
                lemma_arity_sum(rounds@, i as nat, rounds@.len());
            }
            return None;
        }
    }
    Some(total)
}

/// The challenges drawn in the commit phase.
fn replay_rounds(
    t: &mut Transcript,
    proof: &StarkProofView,
    params: &FriParamsView,
) -> (r: Option<Vec<Challenge>>)
    requires
        params_ok(*params),
        proof.opening_proof.fri_proof.commit_pow_witnesses@.len()
            == proof.opening_proof.fri_proof.commit_phase_commits@.len(),
        transcript_log(*old(t)) == log_rounds(
            *proof,
            params.commit_proof_of_work_bits as nat,
            0,
        ),
    ensures
        ({
            let n = proof.opening_proof.fri_proof.commit_phase_commits@.len();
            let bits = params.commit_proof_of_work_bits as nat;
            match r {
                Some(betas) => {
                    &&& transcript_log(*final(t)) == log_rounds(*proof, bits, n)
                    &&& forall|k: nat| k < n ==> #[trigger] round_work_ok(*proof, bits, k)
                    &&& betas@.len() == n
                    &&& forall|k: int|
                        0 <= k < n ==> (#[trigger] betas@[k])@ == challenge_after(
                            log_round_worked(*proof, bits, k as nat),
                        )
                },
                None => exists|k: nat| k < n && !#[trigger] round_work_ok(*proof, bits, k),
            }
        }),
{
    let fri = &proof.opening_proof.fri_proof;
    let ghost bits = params.commit_proof_of_work_bits as nat;
    let mut betas: Vec<Challenge> = Vec::new();
    let mut k: usize = 0;
    while k < fri.commit_phase_commits.len()
        invariant
            k <= fri.commit_phase_commits@.len(),
            params_ok(*params),
            bits == params.commit_proof_of_work_bits,
            *fri == proof.opening_proof.fri_proof,
            fri.commit_pow_witnesses@.len() == fri.commit_phase_commits@.len(),
            transcript_log(*t) == log_rounds(*proof, bits, k as nat),
            forall|j: nat| j < k ==> #[trigger] round_work_ok(*proof, bits, j),
            betas@.len() == k,
            forall|j: int|
                0 <= j < k ==> (#[trigger] betas@[j])@ == challenge_after(
                    log_round_worked(*proof, bits, j as nat),
                ),
        decreases fri.commit_phase_commits.len() - k,
    {
        t.observe_roots(fri.commit_phase_commits[k].as_slice());
        let ok = t.check_witness(params.commit_proof_of_work_bits, fri.commit_pow_witnesses[k]);
        if !ok {
            proof {
                assert(!round_work_ok(*proof, bits, k as nat));
            }
            return None;
        }
        proof {
            assert(round_work_ok(*proof, bits, k as nat));
            assert(transcript_log(*t) == log_round_worked(*proof, bits, k as nat));
        }
        betas.push(t.sample());
        k += 1;
    }
    Some(betas)
}

/// Settles the index of query `q`.
fn settle_index(
    proof: &StarkProofView,
    expected_width: usize,
    Ghost(params): Ghost<FriParamsView>,
    q: usize,
    drawn: usize,
) -> (r: Result<usize, ReplayError>)
    requires
        q < proof.opening_proof.fri_proof.query_proofs@.len(),
        proof.trace_commitment@.len() > 0,
        drawn == drawn_index(*proof, params, q as nat),
        same_height_queries(*proof, params),
    ensures
        match query_report(*proof, expected_width, params, q as int) {
            Some(e) => r == Err::<usize, ReplayError>(e),
            None => r matches Ok(i) && i == query_index(*proof, params, q as int),
        },
{
    let input = &proof.opening_proof.fri_proof.query_proofs[q].input_proof.input_openings;
    if input.len() == 0 || input[0].opened_values.len() == 0 {
        return Err(ReplayError::MissingTraceRow(q));
    }
    let row: &Vec<Val> = &input[0].opened_values[0];
    if row.len() != expected_width {
        return Err(ReplayError::TraceRowWidth(q));
    }
    let siblings: &Vec<[u8; 32]> = &input[0].opening_proof;
    let trace_root: [u8; 32] = proof.trace_commitment[0];
    let replay_root = merkle_root_from_path(
        hash_val_leaf(row.as_slice()),
        siblings.as_slice(),
        drawn,
    );
    if same_digest(&replay_root, &trace_root) {
        return Ok(drawn);
    }
    match recover_same_height_query_index(row.as_slice(), siblings.as_slice(), &trace_root) {
        Ok(i) => Ok(i),
        Err(e) => Err(ReplayError::Recovery(q, e)),
    }
}

/// Replays the challenges of a proof with no public values and the given trace width.
pub fn replay_fri_challenges(
    proof: &StarkProofView,
    expected_width: usize,
    params: &FriParamsView,
) -> (r: Result<AggFriChallenges, ReplayError>)
    requires
        params_ok(*params),
    ensures
        match replay_report(*proof, expected_width, *params) {
            Some(e) => r == Err::<AggFriChallenges, ReplayError>(e),
            None => r matches Ok(c) && is_replay(c, *proof, *params),
        },
{
    if expected_width == 0 {
        return Err(ReplayError::ZeroWidth);
    }
    if proof.randomized {
        return Err(ReplayError::Randomized);
    }
    if proof.preprocessed {
        return Err(ReplayError::Preprocessed);
    }
    let trace_next: &Vec<Challenge> = match &proof.trace_next {
        Some(v) => v,
        None => {
            return Err(ReplayError::MissingTraceNext);
        },
    };
    if proof.trace_local.len() != expected_width || trace_next.len() != expected_width {
        return Err(ReplayError::TraceWidth);
    }
    let num_queries: usize = match fri_queries_from_proof(proof) {
        Ok(n) => n,
        Err(e) => {
            return Err(e);
        },
    };
    let fri = &proof.opening_proof.fri_proof;
    if fri.commit_pow_witnesses.len() != fri.commit_phase_commits.len() {
        return Err(ReplayError::CommitPowCount);
    }
    let mut t = Transcript::new();
    t.observe(Val::from_usize(proof.degree_bits));
    t.observe(Val::from_usize(proof.degree_bits));
    t.observe(Val::from_usize(0));
    proof {
        let d = absorbed_base(proof.degree_bits as int % P as int);
        assert(transcript_log(t) =~= seq![d, d, absorbed_base(0)]);
    }
    t.observe_roots(proof.trace_commitment.as_slice());
    let constraint_alpha = t.sample();
    t.observe_roots(proof.quotient_commitment.as_slice());
    let zeta = t.sample();
    t.observe_elements(proof.trace_local.as_slice());
    t.observe_elements(trace_next.as_slice());
    observe_chunks(&mut t, &proof.quotient_chunks);
    let batch_alpha = t.sample();
    t.observe_roots(proof.opening_proof.first_layer_commitment.as_slice());
    let bivariate_beta = t.sample();
    let betas = match replay_rounds(&mut t, proof, params) {
        Some(b) => b,
        None => {
            return Err(ReplayError::CommitPow);
        },
    };
    t.observe_element(fri.final_poly);
    if !t.check_witness(params.query_proof_of_work_bits, fri.pow_witness) {
        return Err(ReplayError::QueryPow);
    }
    let rounds: &Vec<CommitPhaseStepView> = &fri.query_proofs[0].commit_phase_openings;
    if !check_arities(rounds, params.max_log_arity) {
        return Err(ReplayError::LogArity);
    }
    let fri_log_max_height: usize = match sum_arities(rounds, params.log_blowup) {
        Some(h) => h,
        None => {
            return Err(ReplayError::IndexBits);
        },
    };
    let num_index_bits: usize = fri_log_max_height + 1;
    let ghost bits = num_index_bits as nat;
    let mut drawn: Vec<usize> = Vec::new();
    let mut q: usize = 0;
    while q < num_queries
        invariant
            q <= num_queries,
            num_index_bits <= 30,
            bits == num_index_bits,
            bits == index_bits(*proof, *params),
            transcript_log(t) == log_queries(*proof, *params, bits, q as nat),
            drawn@.len() == q,
            forall|j: int|
                0 <= j < q ==> (#[trigger] drawn@[j]) == drawn_index(*proof, *params, j as nat),
            forall|j: nat|
                j < q ==> 0 <= #[trigger] drawn_index(*proof, *params, j) < exp2(
                    index_bits(*proof, *params) as nat,
                ),
        decreases num_queries - q,
    {
        let i: usize = t.sample_bits(num_index_bits);
        drawn.push(i);
        q += 1;
    }
    if proof.trace_commitment.len() == 0 {
        return Err(ReplayError::EmptyTraceRoots);
    }
    let same_height: bool = proof.degree_bits <= 30 && proof.degree_bits + params.log_blowup
        == num_index_bits;
    let mut query_indices: Vec<usize> = drawn;
    if same_height {
        let ghost f = |q: int| query_report(*proof, expected_width, *params, q);
        let mut q: usize = 0;
        while q < num_queries
            invariant
                q <= num_queries,
                num_queries == proof.opening_proof.fri_proof.query_proofs@.len(),
                proof.trace_commitment@.len() > 0,
                same_height_queries(*proof, *params),
                f == (|q: int| query_report(*proof, expected_width, *params, q)),
                first_some(q as nat, f) is None,
                query_indices@.len() == num_queries,
                forall|j: nat|
                    j < num_queries ==> 0 <= #[trigger] drawn_index(*proof, *params, j) < exp2(
                        index_bits(*proof, *params) as nat,
                    ),
                forall|j: int|
                    0 <= j < q ==> (#[trigger] query_indices@[j]) == query_index(
                        *proof,
                        *params,
                        j,
                    ),
                forall|j: int|
                    q <= j < num_queries ==> (#[trigger] query_indices@[j]) == drawn_index(
                        *proof,
                        *params,
                        j as nat,
                    ),
                replay_report(*proof, expected_width, *params) == first_some(
                    num_queries as nat,
                    f,
                ),
            decreases num_queries - q,
        {
            let raw: usize = query_indices[q];
            proof {
                assert(f(q as int) == query_report(*proof, expected_width, *params, q as int));
            }
            match settle_index(proof, expected_width, Ghost(*params), q, raw) {
                Ok(i) => {
                    query_indices.set(q, i);
                },
                Err(e) => {
                    proof {
                        assert(first_some((q + 1) as nat, f) == Some(e));
                        lemma_first_some_stops((q + 1) as nat, num_queries as nat, f);
                    }
                    return Err(e);
                },
            }
            q += 1;
        }
    }
    Ok(
        AggFriChallenges {
            constraint_alpha,
            zeta,
            batch_alpha,
            bivariate_beta,
            betas,
            query_indices,
            fri_log_max_height,
            log_blowup: params.log_blowup,
            extra_query_index_bits: 1,
        },
    )
}

/// Replays the challenges of an aggregation proof.
pub fn replay_agg_fri_challenges(proof: &StarkProofView, params: &FriParamsView) -> (r: Result<
    AggFriChallenges,
    ReplayError,
>)
    requires
        params_ok(*params),
    ensures
        match replay_report(*proof, AGG_WIDTH, *params) {
            Some(e) => r == Err::<AggFriChallenges, ReplayError>(e),
            None => r matches Ok(c) && is_replay(c, *proof, *params),
        },
{
    replay_fri_challenges(proof, AGG_WIDTH, params)
}

/// Replays the challenges of a recursive aggregation proof.
pub fn replay_rec_agg_fri_challenges(proof: &StarkProofView, params: &FriParamsView) -> (r: Result<
    AggFriChallenges,
    ReplayError,
>)
    requires
        params_ok(*params),
    ensures
        match replay_report(*proof, REC_AGG_WIDTH, *params) {
            Some(e) => r == Err::<AggFriChallenges, ReplayError>(e),
            None => r matches Ok(c) && is_replay(c, *proof, *params),
        },
{
    replay_fri_challenges(proof, REC_AGG_WIDTH, params)
}

} // verus!
