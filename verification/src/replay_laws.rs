//! What each challenge of a replay is drawn from: everything the proof holds before it, in order,
//! entry by entry.
use vstd::prelude::*;

use crate::bits::exp2;
use crate::checks::lemma_first_some_none;
use crate::ext::Challenge;
use crate::field::vals;
use crate::fri_fs_replay::{
    arity_sum, drawn_index_leads, index_bits, is_replay, leads_to, log_final, log_first_layer,
    log_opened, log_queries, log_quotient, log_round_root, log_round_worked, log_rounds, log_trace,
    query_index, query_report, query_trace_path, query_trace_row, recover_report, recovered_index,
    replay_report, round_work_ok, same_height_queries, with_chunks, AggFriChallenges,
};
use crate::merkle::path_root;
use crate::merkle_poseidon2::{poseidon_leaf, poseidon_pair};
use crate::pcs_view::{CommitPhaseStepView, FriParamsView, StarkProofView};
use crate::transcript::{challenge_after, drawn_bits, drawn_challenge, with_elements};

verus! {

/// The entries of the roots of a commitment: each a digest, byte for byte.
pub open spec fn root_entries(e: Seq<Seq<int>>, roots: Seq<[u8; 32]>) -> bool {
    &&& e.len() == roots.len()
    &&& forall|i: int|
        0 <= i < roots.len() ==> {
            &&& (#[trigger] e[i]).len() == 33
            &&& e[i][0] == 1
            &&& forall|j: int| 0 <= j < 32 ==> e[i][1 + j] == #[trigger] roots[i]@[j] as int
        }
}

/// The entries of elements: each coefficient by coefficient.
pub open spec fn element_entries(e: Seq<Seq<int>>, s: Seq<Challenge>) -> bool {
    &&& e.len() == 3 * s.len()
    &&& forall|i: int|
        0 <= i < s.len() ==> {
            &&& e[3 * i] == seq![0, (#[trigger] s[i]).c0@]
            &&& e[3 * i + 1] == seq![0, s[i].c1@]
            &&& e[3 * i + 2] == seq![0, s[i].c2@]
        }
}

/// The entries of lists of elements, one list after the other.
pub open spec fn list_entries(e: Seq<Seq<int>>, s: Seq<Vec<Challenge>>, n: nat) -> bool
    decreases n,
{
    if n == 0 {
        e.len() == 0
    } else {
        let k = 3 * s[n - 1]@.len();
        &&& e.len() >= k
        &&& list_entries(e.take(e.len() - k), s, (n - 1) as nat)
        &&& element_entries(e.skip(e.len() - k), s[n - 1]@)
    }
}

/// The entries of a proof of work: its witness and what was drawn for it, if it is asked for.
pub open spec fn work_entries(e: Seq<Seq<int>>, bits: nat, witness: int) -> bool {
    if bits == 0 {
        e.len() == 0
    } else {
        e == seq![seq![0, witness], seq![3, bits as int]]
    }
}

/// `after` goes on from `before` by the entries `e`.
pub open spec fn goes_on(before: Seq<Seq<int>>, after: Seq<Seq<int>>, e: Seq<Seq<int>>) -> bool {
    after == before + e
}

/// Roots are absorbed as their entries.
proof fn lemma_roots(log: Seq<Seq<int>>, roots: Seq<[u8; 32]>) -> (e: Seq<Seq<int>>)
    ensures
        root_entries(e, roots),
        goes_on(log, crate::transcript::with_roots(log, roots), e),
{
    let e = Seq::new(roots.len(), |i: int| crate::transcript::absorbed_digest(roots[i]@));
    assert forall|i: int| 0 <= i < roots.len() implies {
        &&& (#[trigger] e[i]).len() == 33
        &&& e[i][0] == 1
        &&& forall|j: int| 0 <= j < 32 ==> e[i][1 + j] == #[trigger] roots[i]@[j] as int
    } by {
        assert(roots[i]@.len() == 32);
    }
    e
}

/// Elements are absorbed as their entries.
proof fn lemma_elements(log: Seq<Seq<int>>, s: Seq<Challenge>, n: nat) -> (e: Seq<Seq<int>>)
    requires
        n <= s.len(),
    ensures
        element_entries(e, s.take(n as int)),
        goes_on(log, with_elements(log, s, n), e),
    decreases n,
{
    if n == 0 {
        let e = Seq::<Seq<int>>::empty();
        assert(log =~= log + e);
        e
    } else {
        let k = (n - 1) as nat;
        let d = lemma_elements(log, s, k);
        let x = s[n - 1];
        let e = d.push(seq![0, x.c0@]).push(seq![0, x.c1@]).push(seq![0, x.c2@]);
        assert(with_elements(log, s, n) =~= log + e);
        assert forall|i: int| 0 <= i < n implies {
            &&& e[3 * i] == seq![0, (#[trigger] s.take(n as int)[i]).c0@]
            &&& e[3 * i + 1] == seq![0, s.take(n as int)[i].c1@]
            &&& e[3 * i + 2] == seq![0, s.take(n as int)[i].c2@]
        } by {
            if i < k {
                assert(s.take(k as int)[i] == s.take(n as int)[i]);
            }
        }
        e
    }
}

/// Lists of elements are absorbed as their entries.
proof fn lemma_lists(log: Seq<Seq<int>>, s: Seq<Vec<Challenge>>, n: nat) -> (e: Seq<Seq<int>>)
    requires
        n <= s.len(),
    ensures
        list_entries(e, s, n),
        goes_on(log, with_chunks(log, s, n), e),
    decreases n,
{
    if n == 0 {
        let e = Seq::<Seq<int>>::empty();
        assert(log =~= log + e);
        e
    } else {
        let c = s[n - 1]@;
        let d = lemma_lists(log, s, (n - 1) as nat);
        let before = with_chunks(log, s, (n - 1) as nat);
        let f = lemma_elements(before, c, c.len());
        assert(c.take(c.len() as int) =~= c);
        let e = d + f;
        assert(e.take(e.len() - 3 * c.len()) =~= d);
        assert(e.skip(e.len() - 3 * c.len()) =~= f);
        assert(with_chunks(log, s, n) =~= log + e);
        e
    }
}

/// A proof of work is absorbed as its entries.
proof fn lemma_work(log: Seq<Seq<int>>, bits: nat, witness: int) -> (e: Seq<Seq<int>>)
    ensures
        work_entries(e, bits, witness),
        goes_on(log, crate::transcript::with_work(log, bits, witness), e),
{
    if bits == 0 {
        let e = Seq::<Seq<int>>::empty();
        assert(log =~= log + e);
        e
    } else {
        let e = seq![seq![0, witness], seq![3, bits as int]];
        assert(crate::transcript::with_work(log, bits, witness) =~= log + e);
        e
    }
}

/// What a challenge is: the three numbers drawn after the listed entries.
pub open spec fn drawn_from(c: Challenge, log: Seq<Seq<int>>) -> bool {
    (c.c0@, c.c1@, c.c2@) == drawn_challenge(log)
}

/// The transcript of a proof up to the first fold challenge: the degree twice and a zero, the
/// trace roots; the quotient roots; every opened value; the first-layer roots. A challenge is
/// drawn between the parts.
pub open spec fn opening_transcript(
    p: StarkProofView,
    l0: Seq<Seq<int>>,
    l1: Seq<Seq<int>>,
    l2: Seq<Seq<int>>,
    l3: Seq<Seq<int>>,
) -> bool {
    let d = seq![0, p.degree_bits as int % 0x7fff_ffff];
    &&& exists|e: Seq<Seq<int>>|
        #[trigger] root_entries(e, p.trace_commitment@) && goes_on(
            seq![d, d, seq![0, 0]],
            l0,
            e,
        )
    &&& exists|e: Seq<Seq<int>>|
        #[trigger] root_entries(e, p.quotient_commitment@) && goes_on(l0.push(seq![2]), l1, e)
    &&& exists|a: Seq<Seq<int>>, b: Seq<Seq<int>>, c: Seq<Seq<int>>|
        {
            &&& #[trigger] element_entries(a, p.trace_local@)
            &&& #[trigger] element_entries(b, p.trace_next->0@)
            &&& #[trigger] list_entries(c, p.quotient_chunks@, p.quotient_chunks@.len())
            &&& goes_on(l1.push(seq![2]), l2, a + b + c)
        }
    &&& exists|e: Seq<Seq<int>>|
        #[trigger] root_entries(e, p.opening_proof.first_layer_commitment@) && goes_on(
            l2.push(seq![2]),
            l3,
            e,
        )
}

/// The challenges before the commit phase are drawn from everything the proof holds before them.
pub proof fn lemma_opening_challenges(c: AggFriChallenges, p: StarkProofView, params: FriParamsView)
    requires
        is_replay(c, p, params),
    ensures
        opening_transcript(p, log_trace(p), log_quotient(p), log_opened(p), log_first_layer(p)),
        drawn_from(c.constraint_alpha, log_trace(p)),
        drawn_from(c.zeta, log_quotient(p)),
        drawn_from(c.batch_alpha, log_opened(p)),
        drawn_from(c.bivariate_beta, log_first_layer(p)),
{
    let d = seq![0, p.degree_bits as int % 0x7fff_ffff];
    let start = seq![d, d, seq![0, 0]];
    let e0 = lemma_roots(start, p.trace_commitment@);
    assert(goes_on(start, log_trace(p), e0));
    let l0 = log_trace(p).push(seq![2]);
    let e1 = lemma_roots(l0, p.quotient_commitment@);
    assert(goes_on(l0, log_quotient(p), e1));
    let l1 = log_quotient(p).push(seq![2]);
    let local = p.trace_local@;
    let next = p.trace_next->0@;
    let chunks = p.quotient_chunks@;
    let a = lemma_elements(l1, local, local.len());
    let after_local = with_elements(l1, local, local.len());
    let b = lemma_elements(after_local, next, next.len());
    let after_next = with_elements(after_local, next, next.len());
    let f = lemma_lists(after_next, chunks, chunks.len());
    assert(local.take(local.len() as int) =~= local);
    assert(next.take(next.len() as int) =~= next);
    assert(log_opened(p) =~= l1 + (a + b + f));
    assert(goes_on(l1, log_opened(p), a + b + f));
    let l2 = log_opened(p).push(seq![2]);
    let e3 = lemma_roots(l2, p.opening_proof.first_layer_commitment@);
    assert(goes_on(l2, log_first_layer(p), e3));
    lemma_drawn(c.constraint_alpha, log_trace(p));
    lemma_drawn(c.zeta, log_quotient(p));
    lemma_drawn(c.batch_alpha, log_opened(p));
    lemma_drawn(c.bivariate_beta, log_first_layer(p));
}

/// A challenge that is the one drawn is drawn.
proof fn lemma_drawn(c: Challenge, log: Seq<Seq<int>>)
    requires
        c@ == challenge_after(log),
    ensures
        drawn_from(c, log),
{
    let e = challenge_after(log);
    assert(e.c0 == c.c0@ && e.c1 == c.c1@ && e.c2 == c.c2@);
}

/// Round `k`: its roots and its proof of work go on from what the rounds before left, its
/// challenge is drawn behind them, and the proof of work holds.
pub open spec fn round_transcript(
    c: AggFriChallenges,
    p: StarkProofView,
    bits: nat,
    k: int,
) -> bool {
    let fri = p.opening_proof.fri_proof;
    let before = log_rounds(p, bits, k as nat);
    let rooted = log_round_root(p, bits, k as nat);
    let worked = log_round_worked(p, bits, k as nat);
    let witness = fri.commit_pow_witnesses@[k]@;
    &&& k == 0 ==> before == log_first_layer(p).push(seq![2])
    &&& k > 0 ==> before == log_round_worked(p, bits, (k - 1) as nat).push(seq![2])
    &&& exists|e: Seq<Seq<int>>|
        #[trigger] root_entries(e, fri.commit_phase_commits@[k]@) && goes_on(before, rooted, e)
    &&& exists|e: Seq<Seq<int>>|
        #[trigger] work_entries(e, bits, witness) && goes_on(rooted, worked, e)
    &&& drawn_from(c.betas@[k], worked)
    &&& bits > 0 ==> drawn_bits(rooted.push(seq![0, witness]), bits) == 0
}

/// Every commit-phase challenge is drawn from the roots before it, and every proof of work holds.
pub proof fn lemma_round_challenges(
    c: AggFriChallenges,
    p: StarkProofView,
    width: usize,
    params: FriParamsView,
    k: int,
)
    requires
        is_replay(c, p, params),
        replay_report(p, width, params) is None,
        0 <= k < p.opening_proof.fri_proof.commit_phase_commits@.len(),
    ensures
        c.betas@.len() == p.opening_proof.fri_proof.commit_phase_commits@.len(),
        p.opening_proof.fri_proof.commit_pow_witnesses@.len()
            == p.opening_proof.fri_proof.commit_phase_commits@.len(),
        round_transcript(c, p, params.commit_proof_of_work_bits as nat, k),
{
    let fri = p.opening_proof.fri_proof;
    let bits = params.commit_proof_of_work_bits as nat;
    let before = log_rounds(p, bits, k as nat);
    let rooted = log_round_root(p, bits, k as nat);
    let witness = fri.commit_pow_witnesses@[k]@;
    let e = lemma_roots(before, fri.commit_phase_commits@[k]@);
    assert(goes_on(before, rooted, e));
    let w = lemma_work(rooted, bits, witness);
    assert(goes_on(rooted, log_round_worked(p, bits, k as nat), w));
    assert(round_work_ok(p, bits, k as nat));
    assert(c.betas@[k]@ == challenge_after(log_round_worked(p, bits, k as nat)));
    lemma_drawn(c.betas@[k], log_round_worked(p, bits, k as nat));
}

/// The bits of a query index: one more than the arities of the first query's rounds and the
/// blowup.
pub open spec fn query_bits(p: StarkProofView, params: FriParamsView) -> int {
    let rounds = if p.opening_proof.fri_proof.query_proofs@.len() == 0 {
        Seq::empty()
    } else {
        p.opening_proof.fri_proof.query_proofs@[0].commit_phase_openings@
    };
    arity_sum(rounds, rounds.len()) + params.log_blowup + 1
}

/// Query `q` is drawn behind the final polynomial, the proof of work and the queries before it.
pub open spec fn query_transcript(
    p: StarkProofView,
    params: FriParamsView,
    bits: nat,
    q: nat,
) -> bool {
    let fri = p.opening_proof.fri_proof;
    let n = fri.commit_phase_commits@.len();
    let end = log_rounds(p, params.commit_proof_of_work_bits as nat, n);
    let f = fri.final_poly;
    let finished = end + seq![seq![0, f.c0@], seq![0, f.c1@], seq![0, f.c2@]];
    let here = log_queries(p, params, bits, q);
    &&& q == 0 ==> exists|e: Seq<Seq<int>>|
        #[trigger] work_entries(e, params.query_proof_of_work_bits as nat, fri.pow_witness@)
            && goes_on(finished, here, e)
    &&& q > 0 ==> here == log_queries(p, params, bits, (q - 1) as nat).push(
        seq![3, bits as int],
    )
    &&& params.query_proof_of_work_bits > 0 ==> drawn_bits(
        finished.push(seq![0, fri.pow_witness@]),
        params.query_proof_of_work_bits as nat,
    ) == 0
}

/// Every query index is the drawn one, unless trace rows are opened at the height at which
/// indices are drawn: then it is one at which the opened trace row leads to the trace root.
pub proof fn lemma_query_indices(
    c: AggFriChallenges,
    p: StarkProofView,
    width: usize,
    params: FriParamsView,
    q: int,
)
    requires
        is_replay(c, p, params),
        replay_report(p, width, params) is None,
        0 <= q < p.opening_proof.fri_proof.query_proofs@.len(),
    ensures
        c.query_indices@.len() == p.opening_proof.fri_proof.query_proofs@.len(),
        1 <= c.query_indices@.len(),
        c.log_blowup == params.log_blowup,
        c.extra_query_index_bits == 1,
        query_bits(p, params) <= 30,
        query_transcript(p, params, query_bits(p, params) as nat, q as nat),
        p.degree_bits + params.log_blowup != query_bits(p, params) ==> c.query_indices@[q]
            == drawn_bits(
            log_queries(p, params, query_bits(p, params) as nat, q as nat),
            query_bits(p, params) as nat,
        ),
        p.degree_bits + params.log_blowup == query_bits(p, params) ==> {
            let opening =
                p.opening_proof.fri_proof.query_proofs@[q].input_proof.input_openings@[0];
            &&& opening.opened_values@[0]@.len() == width
            &&& path_root(
                poseidon_pair(),
                poseidon_leaf(vals(opening.opened_values@[0]@)),
                opening.opening_proof@,
                c.query_indices@[q] as int,
            ) == p.trace_commitment@[0]@
        },
{
    let fri = p.opening_proof.fri_proof;
    let bits = query_bits(p, params) as nat;
    assert(index_bits(p, params) == query_bits(p, params));
    let n = fri.commit_phase_commits@.len();
    let end = log_rounds(p, params.commit_proof_of_work_bits as nat, n);
    let f = fri.final_poly;
    let finished = end + seq![seq![0, f.c0@], seq![0, f.c1@], seq![0, f.c2@]];
    assert(log_final(p, params) =~= finished);
    let w = lemma_work(finished, params.query_proof_of_work_bits as nat, fri.pow_witness@);
    assert(goes_on(finished, log_queries(p, params, bits, 0), w));
    assert(c.query_indices@[q] == query_index(p, params, q));
    if same_height_queries(p, params) {
        let g = |q: int| query_report(p, width, params, q);
        lemma_first_some_none(fri.query_proofs@.len(), g, q);
        assert(g(q) is None);
        let row = query_trace_row(p, q);
        let path = query_trace_path(p, q);
        let root = p.trace_commitment@[0]@;
        if !drawn_index_leads(p, params, q) {
            assert(recover_report(row, path, root) is None);
            let depth = (path.len() as u32) as nat;
            assert(exists|i: int| 0 <= i < exp2(depth) && leads_to(row, path, root, i));
            assert(leads_to(row, path, root, recovered_index(row, path, root)));
        }
    }
}

/// Two ways to be the entries of roots are one way.
proof fn lemma_same_roots(e: Seq<Seq<int>>, a: Seq<[u8; 32]>, b: Seq<[u8; 32]>)
    requires
        root_entries(e, a),
        root_entries(e, b),
    ensures
        a == b,
{
    assert forall|i: int| 0 <= i < a.len() implies a[i] == b[i] by {
        assert forall|j: int| 0 <= j < 32 implies a[i]@[j] == b[i]@[j] by {
            assert(e[i][1 + j] == a[i]@[j] as int);
            assert(e[i][1 + j] == b[i]@[j] as int);
        }
        assert(a[i]@ =~= b[i]@);
        vstd::array::axiom_array_ext_equal(a[i], b[i]);
    }
    assert(a =~= b);
}

/// The evaluation point binds the commitments: proofs with as many trace roots that are drawn it
/// from the same transcript have the same trace and quotient roots, and the same degree.
pub proof fn lemma_evaluation_point_binds(p: StarkProofView, q: StarkProofView)
    requires
        log_quotient(p) == log_quotient(q),
        p.trace_commitment@.len() == q.trace_commitment@.len(),
    ensures
        p.trace_commitment@ == q.trace_commitment@,
        p.quotient_commitment@ == q.quotient_commitment@,
        p.degree_bits as int % 0x7fff_ffff == q.degree_bits as int % 0x7fff_ffff,
{
    let (x, y) = (log_quotient(p), log_quotient(q));
    let (a, b) = (log_trace(p), log_trace(q));
    let e = lemma_roots(a.push(seq![2]), p.quotient_commitment@);
    let f = lemma_roots(b.push(seq![2]), q.quotient_commitment@);
    assert(a.len() == b.len());
    assert(a =~= x.take(a.len() as int));
    assert(b =~= y.take(b.len() as int));
    assert(e =~= x.skip(a.len() as int + 1));
    assert(f =~= y.skip(b.len() as int + 1));
    lemma_same_roots(e, p.quotient_commitment@, q.quotient_commitment@);
    let dp = seq![0, p.degree_bits as int % 0x7fff_ffff];
    let dq = seq![0, q.degree_bits as int % 0x7fff_ffff];
    let g = lemma_roots(seq![dp, dp, seq![0, 0]], p.trace_commitment@);
    let h = lemma_roots(seq![dq, dq, seq![0, 0]], q.trace_commitment@);
    assert(g =~= a.skip(3));
    assert(h =~= b.skip(3));
    lemma_same_roots(g, p.trace_commitment@, q.trace_commitment@);
    assert(a[0] == dp && b[0] == dq);
    assert(dp[1] == dq[1]);
}

/// A proof whose challenges can be replayed has the shape of one: one to 40 queries, both rows of
/// values of the given width, a witness of work for each round, and folds of an allowed arity.
pub proof fn lemma_replayable_shape(p: StarkProofView, width: usize, params: FriParamsView)
    requires
        replay_report(p, width, params) is None,
    ensures
        ({
            let fri = p.opening_proof.fri_proof;
            let rounds = fri.query_proofs@[0].commit_phase_openings@;
            &&& 1 <= fri.query_proofs@.len() <= 40
            &&& width >= 1
            &&& p.trace_local@.len() == width
            &&& p.trace_next matches Some(next) && next@.len() == width
            &&& !p.randomized
            &&& !p.preprocessed
            &&& p.trace_commitment@.len() >= 1
            &&& fri.commit_pow_witnesses@.len() == fri.commit_phase_commits@.len()
            &&& forall|i: int|
                0 <= i < rounds.len() ==> 1 <= (#[trigger] rounds[i]).log_arity
                    <= params.max_log_arity
        }),
{
    let rounds = p.opening_proof.fri_proof.query_proofs@[0].commit_phase_openings@;
    assert(crate::fri_fs_replay::first_rounds(p) == rounds);
}

/// Where every fold of the first query takes pairs, an index has a bit for each round, those of
/// the blowup, and one.
pub proof fn lemma_pair_rounds(rounds: Seq<CommitPhaseStepView>, n: nat)
    requires
        n <= rounds.len(),
        forall|i: int| 0 <= i < rounds.len() ==> (#[trigger] rounds[i]).log_arity == 1,
    ensures
        crate::fri_fs_replay::arity_sum(rounds, n) == n,
    decreases n,
{
    if n > 0 {
        lemma_pair_rounds(rounds, (n - 1) as nat);
    }
}

} // verus!
