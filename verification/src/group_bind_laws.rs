//! Groups that are accepted stand for the openings of their proof: every group of every list,
//! each for the statements at the positions that it covers.
use vstd::prelude::*;

use crate::bits::{exp2, lemma_shr_divides};
use crate::checks::{checked, in_turn};
use crate::field::{vals, Val};
use crate::fri_fs_replay::{is_replay, AggFriChallenges};
use crate::fri_mmcs_bind::AggFriMmcsBundle;
use crate::fri_mmcs_group_m4b::{
    group_publics, group_verify_outcome, MmcsGroupPathAir, MmcsPathStatement,
};
use crate::fri_mmcs_m4c::{
    all_merged, chal_claims, chal_custom, chal_group_stage, chal_groups_stage, chal_merged,
    chal_stage, chunk_says, chunks_say, commit_walk, covered, flat_claims, group_bind_outcome,
    group_says, leaf_bind_outcome, leaf_report, leaf_stages, optional_claims, optional_stage,
    pcs_stage, trace_stage, val_claims, val_custom, val_group_stage, val_stage, BindInput,
    GroupBindError, GroupLabel,
};
use crate::fri_ro::RoInput;
use crate::mmcs_group_fold::{MmcsGroupFoldProof, PoseidonGroupFoldProof};
use crate::mmcs_statements::{
    are_statements, claims_of, quot_claim, trace_claim, LeafMmcsGroupStatements, PathClaim,
};
use crate::mmcs_strip::LeafMmcsFoldGroups;
use crate::pcs_view::{FriParamsView, StarkProofView};
use crate::val_mmcs::query_of;

verus! {

/// A statement claims that a row stands at a position below a root.
pub open spec fn states(
    s: MmcsPathStatement,
    row: Seq<int>,
    siblings: Seq<[u8; 32]>,
    index: int,
    root: Seq<u8>,
) -> bool {
    &&& s.row@.len() == row.len()
    &&& forall|i: int| 0 <= i < row.len() ==> (#[trigger] s.row@[i])@ == row[i]
    &&& s.siblings@ == siblings
    &&& s.index == index
    &&& s.root@ == root
}

/// Statements that make these claims, one for one.
pub open spec fn states_all(s: Seq<MmcsPathStatement>, claims: Seq<PathClaim>) -> bool {
    &&& s.len() == claims.len()
    &&& forall|i: int|
        0 <= i < s.len() ==> states(
            #[trigger] s[i],
            claims[i].row,
            claims[i].siblings,
            claims[i].index,
            claims[i].root,
        )
}

/// The verifier of a group may accept its proof bytes for statements that make these claims.
pub open spec fn group_accepts<
    K: Fn(&MmcsGroupPathAir, &[Val], &[u8]) -> bool,
    P: Fn(&[MmcsPathStatement], &PoseidonGroupFoldProof) -> bool,
>(keccak: K, poseidon: P, claims: Seq<PathClaim>, g: MmcsGroupFoldProof) -> bool {
    match g {
        MmcsGroupFoldProof::Keccak(p) => exists|
            s: Seq<MmcsPathStatement>,
            a: &MmcsGroupPathAir,
            v: &[Val],
            b: &[u8],
        |
            {
                &&& #[trigger] states_all(s, claims)
                &&& #[trigger] call_ensures(keccak, (a, v, b), true)
                &&& a.path_count == claims.len()
                &&& a.depth == p.depth
                &&& vals(v@) == group_publics(s, p.depth as int)
                &&& b@ == p.group_stark@
            },
        MmcsGroupFoldProof::Poseidon(p) => exists|s: &[MmcsPathStatement]|
            #![trigger states_all(s@, claims)]
            states_all(s@, claims) && call_ensures(poseidon, (s, &p), true),
    }
}

/// The number of paths that a group covers.
pub open spec fn paths_of(g: MmcsGroupFoldProof) -> int {
    match g {
        MmcsGroupFoldProof::Keccak(p) => p.path_count as int,
        MmcsGroupFoldProof::Poseidon(p) => p.path_count as int,
    }
}

/// The number of paths before group `k`.
pub open spec fn paths_before(groups: Seq<MmcsGroupFoldProof>, k: nat) -> int
    decreases k,
{
    if k == 0 {
        0
    } else {
        paths_before(groups, (k - 1) as nat) + paths_of(groups[k - 1])
    }
}

/// The claims that group `k` covers.
pub open spec fn part_of(
    claims: Seq<PathClaim>,
    groups: Seq<MmcsGroupFoldProof>,
    k: int,
) -> Seq<PathClaim> {
    claims.subrange(paths_before(groups, k as nat), paths_before(groups, (k + 1) as nat))
}

/// The groups of a list split the claims among them in turn, leave none out, and each may be
/// accepted for its part.
pub open spec fn accepted_in_turn<
    K: Fn(&MmcsGroupPathAir, &[Val], &[u8]) -> bool,
    P: Fn(&[MmcsPathStatement], &PoseidonGroupFoldProof) -> bool,
>(
    keccak: K,
    poseidon: P,
    claims: Seq<PathClaim>,
    groups: Seq<MmcsGroupFoldProof>,
) -> bool {
    &&& paths_before(groups, groups.len()) == claims.len()
    &&& forall|k: int|
        0 <= k < groups.len() ==> {
            &&& 0 <= #[trigger] paths_before(groups, k as nat)
            &&& paths_before(groups, (k + 1) as nat) <= claims.len()
            &&& group_accepts(keccak, poseidon, part_of(claims, groups, k), groups[k])
        }
}

/// One group that can only be refused for the whole list is not accepted.
pub proof fn lemma_refused_group_not_accepted<
    K: Fn(&MmcsGroupPathAir, &[Val], &[u8]) -> bool,
    P: Fn(&[MmcsPathStatement], &PoseidonGroupFoldProof) -> bool,
>(keccak: K, poseidon: P, claims: Seq<PathClaim>, g: MmcsGroupFoldProof)
    requires
        accepted_in_turn(keccak, poseidon, claims, seq![g]),
    ensures
        paths_of(g) == claims.len(),
        group_accepts(keccak, poseidon, claims, g),
{
    let groups = seq![g];
    assert(paths_before(groups, 0nat) == 0);
    assert(paths_before(groups, 1nat) == paths_of(g)) by {
        reveal_with_fuel(paths_before, 2);
    }
    assert(0 <= paths_before(groups, 0int as nat));
    assert(part_of(claims, groups, 0) =~= claims);
}

/// The sums agree.
proof fn lemma_covered(groups: Seq<MmcsGroupFoldProof>, k: nat)
    requires
        k <= groups.len(),
    ensures
        covered(groups, k) == paths_before(groups, k),
        paths_before(groups, k) >= 0,
    decreases k,
{
    if k > 0 {
        lemma_covered(groups, (k - 1) as nat);
    }
}

/// Statements whose claims are these make them.
pub(crate) proof fn lemma_states_all(s: Seq<MmcsPathStatement>, claims: Seq<PathClaim>)
    requires
        claims_of(s) == claims,
    ensures
        states_all(s, claims),
{
    assert forall|i: int| 0 <= i < s.len() implies states(
        #[trigger] s[i],
        claims[i].row,
        claims[i].siblings,
        claims[i].index,
        claims[i].root,
    ) by {
        assert(claims_of(s)[i] == claims[i]);
        assert(claims[i].row == vals(s[i].row@));
    }
}

/// A group that may say yes may be accepted.
proof fn lemma_group_accepts<
    K: Fn(&MmcsGroupPathAir, &[Val], &[u8]) -> bool,
    P: Fn(&[MmcsPathStatement], &PoseidonGroupFoldProof) -> bool,
>(keccak: K, poseidon: P, claims: Seq<PathClaim>, g: MmcsGroupFoldProof)
    requires
        group_says(keccak, poseidon, claims, g, true),
    ensures
        group_accepts(keccak, poseidon, claims, g),
{
    match g {
        MmcsGroupFoldProof::Keccak(p) => {
            let s = choose|s: Seq<MmcsPathStatement>| #[trigger]
                claims_of(s) == claims && group_verify_outcome(keccak, s, p, true);
            lemma_states_all(s, claims);
            let (a, v, b) = choose|a: &MmcsGroupPathAir, v: &[Val], b: &[u8]|
                {
                    &&& #[trigger] call_ensures(keccak, (a, v, b), true)
                    &&& a.leaf_msg_len == 4 * s[0].row@.len()
                    &&& a.depth == p.depth
                    &&& a.path_count == p.path_count
                    &&& vals(v@) == group_publics(s, p.depth as int)
                    &&& b@ == p.group_stark@
                };
            assert(call_ensures(keccak, (a, v, b), true));
            assert(a.path_count == claims.len());
        },
        MmcsGroupFoldProof::Poseidon(p) => {
            let s = choose|s: &[MmcsPathStatement]| #[trigger]
                claims_of(s@) == claims && call_ensures(poseidon, (s, &p), true);
            lemma_states_all(s@, claims);
        },
    }
}

/// A list of groups that is accepted is accepted in turn.
proof fn lemma_chunks_accepted<
    K: Fn(&MmcsGroupPathAir, &[Val], &[u8]) -> bool,
    P: Fn(&[MmcsPathStatement], &PoseidonGroupFoldProof) -> bool,
>(
    keccak: K,
    poseidon: P,
    claims: Seq<PathClaim>,
    groups: Seq<MmcsGroupFoldProof>,
    label: GroupLabel,
)
    requires
        chunks_say(keccak, poseidon, claims, groups, label, Ok(())),
    ensures
        accepted_in_turn(keccak, poseidon, claims, groups),
{
    reveal(chunks_say);
    let step = |k: int, x: Result<(), GroupBindError>|
        chunk_says(keccak, poseidon, claims, groups, label, k, x);
    assert(in_turn(groups.len(), step, Ok(())));
    lemma_covered(groups, groups.len());
    assert forall|k: int| 0 <= k < groups.len() implies {
        &&& 0 <= #[trigger] paths_before(groups, k as nat)
        &&& paths_before(groups, (k + 1) as nat) <= claims.len()
        &&& group_accepts(keccak, poseidon, part_of(claims, groups, k), groups[k])
    } by {
        assert(step(k, Ok(())));
        lemma_covered(groups, k as nat);
        lemma_covered(groups, (k + 1) as nat);
        lemma_group_accepts(keccak, poseidon, part_of(claims, groups, k), groups[k]);
    }
}

/// The statements before entry `i`.
spec fn entries_before(entries: Seq<(usize, Vec<MmcsPathStatement>)>, i: nat) -> int {
    flat_claims(entries.take(i as int)).len() as int
}

/// Where the claims of entry `i` stand among all.
proof fn lemma_entry_part(entries: Seq<(usize, Vec<MmcsPathStatement>)>, i: nat, n: nat)
    requires
        i < n <= entries.len(),
    ensures
        entries_before(entries, (i + 1) as nat) == entries_before(entries, i)
            + entries[i as int].1@.len(),
        entries_before(entries, (i + 1) as nat) <= flat_claims(entries.take(n as int)).len(),
        0 <= entries_before(entries, i),
        flat_claims(entries.take(n as int)).subrange(
            entries_before(entries, i),
            entries_before(entries, (i + 1) as nat),
        ) == claims_of(entries[i as int].1@),
    decreases n,
{
    let some = entries.take(n as int);
    assert(some.drop_last() =~= entries.take(n - 1));
    assert(some.last() == entries[n - 1]);
    let one = entries.take(i as int + 1);
    assert(one.drop_last() =~= entries.take(i as int));
    assert(one.last() == entries[i as int]);
    let here = claims_of(entries[i as int].1@);
    let a = entries_before(entries, i);
    let b = entries_before(entries, (i + 1) as nat);
    if n == i + 1 {
        assert(flat_claims(some).subrange(a, b) =~= here);
    } else {
        lemma_entry_part(entries, i, (n - 1) as nat);
        let less = flat_claims(entries.take(n - 1));
        assert(flat_claims(some).subrange(a, b) =~= less.subrange(a, b));
    }
}

/// Commit-phase groups that are walked to the end, from group `k` and statement `off` of entry
/// `i` on, are accepted in turn.
proof fn lemma_walk_accepted<
    K: Fn(&MmcsGroupPathAir, &[Val], &[u8]) -> bool,
    P: Fn(&[MmcsPathStatement], &PoseidonGroupFoldProof) -> bool,
>(
    keccak: K,
    poseidon: P,
    entries: Seq<(usize, Vec<MmcsPathStatement>)>,
    groups: Seq<MmcsGroupFoldProof>,
    k: nat,
    i: nat,
    off: int,
)
    requires
        k <= groups.len(),
        i <= entries.len(),
        0 <= off,
        i < entries.len() ==> off <= entries[i as int].1@.len(),
        i == entries.len() ==> off == 0,
        commit_walk(keccak, poseidon, entries, groups, k, i, off, Ok(())),
        paths_before(groups, k) == entries_before(entries, i) + off,
        forall|m: int|
            0 <= m < k ==> {
                &&& 0 <= #[trigger] paths_before(groups, m as nat)
                &&& paths_before(groups, (m + 1) as nat) <= flat_claims(entries).len()
                &&& group_accepts(
                    keccak,
                    poseidon,
                    part_of(flat_claims(entries), groups, m),
                    groups[m],
                )
            },
    ensures
        accepted_in_turn(keccak, poseidon, flat_claims(entries), groups),
    decreases entries.len() - i, groups.len() - k,
{
    let all = flat_claims(entries);
    assert(entries.take(entries.len() as int) =~= entries);
    if i >= entries.len() {
        assert(k == groups.len());
    } else {
        lemma_entry_part(entries, i, entries.len());
        let stmts = entries[i as int].1;
        if off >= stmts@.len() {
            lemma_walk_accepted(keccak, poseidon, entries, groups, k, i + 1, 0);
        } else {
            let g = groups[k as int];
            let end = off + g.path_count_spec();
            assert(k < groups.len());
            assert(end <= stmts@.len());
            assert(group_says(
                keccak,
                poseidon,
                claims_of(stmts@).subrange(off, end),
                g,
                true,
            ));
            assert(paths_before(groups, (k + 1) as nat) == paths_before(groups, k) + paths_of(g));
            let a = entries_before(entries, i);
            let mine = claims_of(stmts@).subrange(off, end);
            let part = part_of(all, groups, k as int);
            let mid = all.subrange(a, a + stmts@.len());
            assert(mid == claims_of(stmts@));
            assert forall|x: int| 0 <= x < mine.len() implies #[trigger] mine[x] == part[x] by {
                assert(mid[off + x] == all[a + off + x]);
            }
            assert(mine =~= part);
            lemma_group_accepts(keccak, poseidon, part_of(all, groups, k as int), g);
            lemma_walk_accepted(keccak, poseidon, entries, groups, k + 1, i, end);
        }
    }
}

/// What the groups of a bound bundle stand for.
pub open spec fn groups_stand<
    K: Fn(&MmcsGroupPathAir, &[Val], &[u8]) -> bool,
    P: Fn(&[MmcsPathStatement], &PoseidonGroupFoldProof) -> bool,
>(
    keccak: K,
    poseidon: P,
    g: LeafMmcsFoldGroups,
    s: LeafMmcsGroupStatements,
    one_list: bool,
) -> bool {
    let trace = claims_of(s.val_trace@);
    let first = match s.chal_first_layer {
        Some(v) => claims_of(v@),
        None => Seq::empty(),
    };
    let quot = match (s.val_quot_batch, s.val_quot) {
        (Some(v), _) => claims_of(v@),
        (None, Some(v)) => claims_of(v@),
        (None, None) => Seq::empty(),
    };
    let commit = flat_claims(s.chal_commit@);
    // one list for every path of the proof
    &&& one_list ==> accepted_in_turn(
        keccak,
        poseidon,
        trace + quot + (first + commit),
        g.val_trace@,
    )
    // trace paths, alone or with the joint quotient paths
    &&& !one_list && g.val_trace@.len() > 0 ==> {
        ||| accepted_in_turn(keccak, poseidon, trace, g.val_trace@)
        ||| {
            &&& g.val_quot@.len() == 0 && g.val_quot_batch@.len() == 0
            &&& s.val_quot_batch matches Some(v) && accepted_in_turn(
                keccak,
                poseidon,
                trace + claims_of(v@),
                g.val_trace@,
            )
        }
    }
    &&& g.val_quot@.len() > 0 ==> (s.val_quot matches Some(v) && accepted_in_turn(
        keccak,
        poseidon,
        claims_of(v@),
        g.val_quot@,
    ))
    &&& g.val_quot_batch@.len() > 0 ==> (s.val_quot_batch matches Some(v) && accepted_in_turn(
        keccak,
        poseidon,
        claims_of(v@),
        g.val_quot_batch@,
    ))
    &&& !one_list && g.chal_first_layer@.len() > 0 ==> (s.chal_first_layer matches Some(v)
        && accepted_in_turn(keccak, poseidon, claims_of(v@), g.chal_first_layer@))
    // commit-phase paths, alone or behind the first layer's
    &&& !one_list && g.chal_commit@.len() > 0 ==> {
        ||| accepted_in_turn(keccak, poseidon, commit, g.chal_commit@)
        ||| {
            &&& g.chal_first_layer@.len() == 0
            &&& accepted_in_turn(keccak, poseidon, first + commit, g.chal_commit@)
        }
    }
}

/// No kind but the trace is grouped.
pub open spec fn only_trace_groups(g: LeafMmcsFoldGroups) -> bool {
    &&& g.val_trace@.len() > 0
    &&& g.val_quot@.len() == 0
    &&& g.val_quot_batch@.len() == 0
    &&& g.chal_first_layer@.len() == 0
    &&& g.chal_commit@.len() == 0
}

/// A group that its verifier does not accept, whatever it is said to stand for.
pub open spec fn hopeless<
    K: Fn(&MmcsGroupPathAir, &[Val], &[u8]) -> bool,
    P: Fn(&[MmcsPathStatement], &PoseidonGroupFoldProof) -> bool,
>(keccak: K, poseidon: P, g: MmcsGroupFoldProof) -> bool {
    forall|claims: Seq<PathClaim>| !(#[trigger] group_accepts(keccak, poseidon, claims, g))
}

/// A group that cannot be accepted fails the binding: any group of the trace and quotient lists,
/// and any of the others where the trace list is not said to stand for every path.
pub proof fn lemma_hopeless_group_refused<
    K: Fn(&MmcsGroupPathAir, &[Val], &[u8]) -> bool,
    P: Fn(&[MmcsPathStatement], &PoseidonGroupFoldProof) -> bool,
>(
    keccak: K,
    poseidon: P,
    proof: StarkProofView,
    bundle: AggFriMmcsBundle,
    groups: LeafMmcsFoldGroups,
    width: usize,
    params: FriParamsView,
    r: Result<(), GroupBindError>,
    list: Seq<MmcsGroupFoldProof>,
    k: int,
)
    requires
        group_bind_outcome(keccak, poseidon, proof, bundle, groups, width, params, r),
        ({
            ||| list == groups.val_trace@
            ||| list == groups.val_quot@
            ||| list == groups.val_quot_batch@
            ||| !groups.pcs_combined && list == groups.chal_first_layer@
            ||| !groups.pcs_combined && list == groups.chal_commit@
        }),
        0 <= k < list.len(),
        hopeless(keccak, poseidon, list[k]),
    ensures
        r is Err,
{
    if r is Ok {
        lemma_success(r);
        lemma_bound_groups_accepted(keccak, poseidon, proof, bundle, groups, width, params);
        let (chal, s, one_list) = choose|
            chal: AggFriChallenges,
            s: LeafMmcsGroupStatements,
            one_list: bool,
        |
            {
                &&& #[trigger] is_replay(chal, proof, params)
                &&& #[trigger] are_statements(s, proof, chal, width, bundle)
                &&& states_openings(s, proof, chal)
                &&& groups.pcs_combined ==> one_list
                &&& one_list && !groups.pcs_combined ==> only_trace_groups(groups)
                &&& #[trigger] groups_stand(keccak, poseidon, groups, s, one_list)
            };
        assert forall|claims: Seq<PathClaim>| !(#[trigger] accepted_in_turn(
            keccak,
            poseidon,
            claims,
            list,
        )) by {
            if accepted_in_turn(keccak, poseidon, claims, list) {
                assert(0 <= paths_before(list, k as nat));
                assert(group_accepts(keccak, poseidon, part_of(claims, list, k), list[k]));
            }
        }
    }
}

/// The position of query `q` in a codeword that is lower than the tallest by `2^above`.
pub open spec fn position_below(chal: AggFriChallenges, q: int, above: int) -> int {
    chal.query_indices@[q] as int / (exp2(above as nat) as int)
}

/// The statements on trace and single quotient rows: one for each query, with the opened row, its
/// path, the query's position and the commitment.
pub open spec fn states_openings(
    s: LeafMmcsGroupStatements,
    proof: StarkProofView,
    chal: AggFriChallenges,
) -> bool {
    let fri = proof.opening_proof.fri_proof;
    let n = fri.query_proofs@.len();
    let rounds = fri.commit_phase_commits@.len();
    &&& s.val_trace@.len() == n
    &&& forall|q: int|
        0 <= q < n ==> {
            let opening = fri.query_proofs@[q].input_proof.input_openings@[0];
            states(
                #[trigger] s.val_trace@[q],
                vals(opening.opened_values@[0]@),
                opening.opening_proof@,
                position_below(chal, q, rounds + 1 - proof.degree_bits),
                proof.trace_commitment@[0]@,
            )
        }
    &&& s.val_quot matches Some(v) ==> v@.len() == n && proof.quotient_chunks@.len() == 1
        && forall|q: int|
        0 <= q < n ==> {
            let opening = fri.query_proofs@[q].input_proof.input_openings@[1];
            states(
                #[trigger] v@[q],
                vals(opening.opened_values@[0]@),
                opening.opening_proof@,
                position_below(chal, q, rounds - proof.degree_bits),
                proof.quotient_commitment@[0]@,
            )
        }
}

/// A bundle that is bound: for some statements of its proof's openings, every group of every list
/// may be accepted for exactly the statements at the positions that it covers, and no statement
/// of a grouped kind is left out. Where one list stands for every path, groups for commit-phase
/// paths beside it are not looked at.
pub proof fn lemma_bound_groups_accepted<
    K: Fn(&MmcsGroupPathAir, &[Val], &[u8]) -> bool,
    P: Fn(&[MmcsPathStatement], &PoseidonGroupFoldProof) -> bool,
>(
    keccak: K,
    poseidon: P,
    proof: StarkProofView,
    bundle: AggFriMmcsBundle,
    groups: LeafMmcsFoldGroups,
    width: usize,
    params: FriParamsView,
)
    requires
        group_bind_outcome(keccak, poseidon, proof, bundle, groups, width, params, Ok(())),
    ensures
        exists|chal: AggFriChallenges, s: LeafMmcsGroupStatements, one_list: bool|
            {
                &&& #[trigger] is_replay(chal, proof, params)
                &&& #[trigger] are_statements(s, proof, chal, width, bundle)
                &&& states_openings(s, proof, chal)
                &&& groups.pcs_combined ==> one_list
                &&& one_list && !groups.pcs_combined ==> only_trace_groups(groups)
                &&& #[trigger] groups_stand(keccak, poseidon, groups, s, one_list)
            },
{
    let r = Ok::<(), GroupBindError>(());
    let chal = choose|chal: AggFriChallenges| #[trigger]
        is_replay(chal, proof, params) && leaf_bind_outcome(
            keccak,
            poseidon,
            (BindInput { proof, chal, width, bundle, groups }),
            r,
        );
    let b = BindInput { proof, chal, width, bundle, groups };
    assert(leaf_report(b) is None);
    let s = choose|s: LeafMmcsGroupStatements| #[trigger]
        are_statements(s, b.proof, b.chal, b.width, b.bundle) && leaf_stages(
            keccak,
            poseidon,
            b,
            s,
            b.groups.pcs_combined || all_merged(b.groups, s),
            r,
        );
    let one_list = groups.pcs_combined || all_merged(groups, s);
    lemma_stages_stand(keccak, poseidon, b, s, one_list);
    lemma_states_openings(b, s);
}

/// The statements are those of the openings.
proof fn lemma_states_openings(b: BindInput, s: LeafMmcsGroupStatements)
    requires
        leaf_report(b) is None,
        are_statements(s, b.proof, b.chal, b.width, b.bundle),
        b.chal.query_indices@.len() == b.proof.opening_proof.fri_proof.query_proofs@.len(),
    ensures
        states_openings(s, b.proof, b.chal),
{
    let proof = b.proof;
    let chal = b.chal;
    let fri = proof.opening_proof.fri_proof;
    let n = fri.query_proofs@.len();
    let rounds = fri.commit_phase_commits@.len();
    let trace = claims_of(s.val_trace@);
    assert(trace == Seq::new(n, |q: int| trace_claim(query_of(proof, chal, q))));
    lemma_states_all(s.val_trace@, trace);
    assert(s.val_trace@.len() == trace.len());
    assert forall|q: int| 0 <= q < n implies {
        let opening = fri.query_proofs@[q].input_proof.input_openings@[0];
        states(
            #[trigger] s.val_trace@[q],
            vals(opening.opened_values@[0]@),
            opening.opening_proof@,
            position_below(chal, q, rounds + 1 - proof.degree_bits),
            proof.trace_commitment@[0]@,
        )
    } by {
        let ri = query_of(proof, chal, q);
        assert(trace[q] == trace_claim(ri));
        lemma_height_position(ri, ri.trace_height());
    }
    if let Some(v) = s.val_quot {
        let quot = claims_of(v@);
        assert(quot == Seq::new(n, |q: int| quot_claim(query_of(proof, chal, q))));
        lemma_states_all(v@, quot);
        assert(v@.len() == quot.len());
        assert forall|q: int| 0 <= q < n implies {
            let opening = fri.query_proofs@[q].input_proof.input_openings@[1];
            states(
                #[trigger] v@[q],
                vals(opening.opened_values@[0]@),
                opening.opening_proof@,
                position_below(chal, q, rounds - proof.degree_bits),
                proof.quotient_commitment@[0]@,
            )
        } by {
            let ri = query_of(proof, chal, q);
            assert(quot[q] == quot_claim(ri));
            lemma_height_position(ri, ri.quotient_height());
        }
    }
}

/// The position of a query in the codeword of a height.
proof fn lemma_height_position(ri: RoInput, h: int)
    requires
        0 <= ri.query < ri.chal.query_indices@.len(),
    ensures
        ri.index_at(h) == position_below(ri.chal, ri.query, ri.log_max_height() - h),
{
    lemma_shr_divides(ri.query_index(), (ri.log_max_height() - h) as nat);
}

/// Success has one form.
proof fn lemma_success(x: Result<(), GroupBindError>)
    requires
        x is Ok,
    ensures
        x == Ok::<(), GroupBindError>(()),
{
    assert(x->Ok_0 == ());
}

/// Every stage of a bundle that is bound succeeded.
pub(crate) proof fn lemma_stages_succeeded<
    K: Fn(&MmcsGroupPathAir, &[Val], &[u8]) -> bool,
    P: Fn(&[MmcsPathStatement], &PoseidonGroupFoldProof) -> bool,
>(keccak: K, poseidon: P, b: BindInput, s: LeafMmcsGroupStatements, one_list: bool)
    requires
        leaf_stages(keccak, poseidon, b, s, one_list, Ok(())),
    ensures
        pcs_stage(keccak, poseidon, b, s, one_list, Ok(())),
        val_stage(keccak, poseidon, b, s, one_list, Ok(())),
        chal_stage(keccak, poseidon, b, s, one_list, Ok(())),
{
    let r = Ok::<(), GroupBindError>(());
    let x = choose|x: Result<(), GroupBindError>| #[trigger]
        pcs_stage(keccak, poseidon, b, s, one_list, x) && (if x is Err {
            r == x
        } else {
            exists|y: Result<(), GroupBindError>| #[trigger]
                val_stage(keccak, poseidon, b, s, one_list, y) && (if y is Err {
                    r == y
                } else {
                    chal_stage(keccak, poseidon, b, s, one_list, r)
                })
        });
    lemma_success(x);
    let y = choose|y: Result<(), GroupBindError>| #[trigger]
        val_stage(keccak, poseidon, b, s, one_list, y) && (if y is Err {
            r == y
        } else {
            chal_stage(keccak, poseidon, b, s, one_list, r)
        });
    lemma_success(y);
}

/// One list for every path of the proof.
proof fn lemma_one_list_accepted<
    K: Fn(&MmcsGroupPathAir, &[Val], &[u8]) -> bool,
    P: Fn(&[MmcsPathStatement], &PoseidonGroupFoldProof) -> bool,
>(keccak: K, poseidon: P, b: BindInput, s: LeafMmcsGroupStatements)
    requires
        pcs_stage(keccak, poseidon, b, s, true, Ok(())),
    ensures
        accepted_in_turn(
            keccak,
            poseidon,
            val_claims(s) + chal_claims(s),
            b.groups.val_trace@,
        ),
{
    lemma_chunks_accepted(
        keccak,
        poseidon,
        val_claims(s) + chal_claims(s),
        b.groups.val_trace@,
        GroupLabel::Pcs,
    );
}

/// Stages that succeed leave groups that stand.
proof fn lemma_stages_stand<
    K: Fn(&MmcsGroupPathAir, &[Val], &[u8]) -> bool,
    P: Fn(&[MmcsPathStatement], &PoseidonGroupFoldProof) -> bool,
>(keccak: K, poseidon: P, b: BindInput, s: LeafMmcsGroupStatements, one_list: bool)
    requires
        leaf_stages(keccak, poseidon, b, s, one_list, Ok(())),
    ensures
        groups_stand(keccak, poseidon, b.groups, s, one_list),
{
    let g = b.groups;
    lemma_stages_succeeded(keccak, poseidon, b, s, one_list);
    if one_list {
        lemma_one_list_accepted(keccak, poseidon, b, s);
    }
    if g.val_trace@.len() > 0 || g.val_quot@.len() > 0 || g.val_quot_batch@.len() > 0 {
        assert(val_custom(b));
        lemma_val_groups_stand(keccak, poseidon, b, s, one_list);
    }
    if !one_list && (g.chal_first_layer@.len() > 0 || g.chal_commit@.len() > 0) {
        assert(chal_custom(b, one_list));
        lemma_chal_groups_stand(keccak, poseidon, b, s);
    }
}

/// Groups of optional statements.
proof fn lemma_optional_accepted<
    K: Fn(&MmcsGroupPathAir, &[Val], &[u8]) -> bool,
    P: Fn(&[MmcsPathStatement], &PoseidonGroupFoldProof) -> bool,
>(
    keccak: K,
    poseidon: P,
    stmts: Option<Vec<MmcsPathStatement>>,
    groups: Seq<MmcsGroupFoldProof>,
    label: GroupLabel,
)
    requires
        optional_stage(keccak, poseidon, stmts, groups, label, Ok(())),
        groups.len() > 0,
    ensures
        stmts matches Some(v) && accepted_in_turn(keccak, poseidon, claims_of(v@), groups),
{
    reveal(optional_stage);
    if let Some(v) = stmts {
        lemma_chunks_accepted(keccak, poseidon, claims_of(v@), groups, label);
    }
}

/// Every stage of bound trace and quotient paths succeeded.
pub(crate) proof fn lemma_val_stages<
    K: Fn(&MmcsGroupPathAir, &[Val], &[u8]) -> bool,
    P: Fn(&[MmcsPathStatement], &PoseidonGroupFoldProof) -> bool,
>(keccak: K, poseidon: P, b: BindInput, s: LeafMmcsGroupStatements, one_list: bool)
    requires
        val_group_stage(keccak, poseidon, b, s, one_list, Ok(())),
    ensures
        trace_stage(keccak, poseidon, b, s, one_list, Ok(())),
        optional_stage(
            keccak,
            poseidon,
            s.val_quot,
            b.groups.val_quot@,
            GroupLabel::ValQuot,
            Ok(()),
        ),
        optional_stage(
            keccak,
            poseidon,
            s.val_quot_batch,
            b.groups.val_quot_batch@,
            GroupLabel::ValQuotBatch,
            Ok(()),
        ),
        b.val_queries_report(b.val_merged(s, one_list)) is None,
{
    reveal(val_group_stage);
    let g = b.groups;
    let r = Ok::<(), GroupBindError>(());
    let report = b.val_queries_report(b.val_merged(s, one_list));
    let t = choose|t: Result<(), GroupBindError>| #[trigger]
        trace_stage(keccak, poseidon, b, s, one_list, t) && (if t is Err {
            r == t
        } else {
            exists|u: Result<(), GroupBindError>| #[trigger]
                optional_stage(
                    keccak,
                    poseidon,
                    s.val_quot,
                    g.val_quot@,
                    GroupLabel::ValQuot,
                    u,
                ) && (if u is Err {
                    r == u
                } else {
                    exists|w: Result<(), GroupBindError>| #[trigger]
                        optional_stage(
                            keccak,
                            poseidon,
                            s.val_quot_batch,
                            g.val_quot_batch@,
                            GroupLabel::ValQuotBatch,
                            w,
                        ) && (if w is Err {
                            r == w
                        } else {
                            checked(r, report)
                        })
                })
        });
    lemma_success(t);
    let u = choose|u: Result<(), GroupBindError>| #[trigger]
        optional_stage(keccak, poseidon, s.val_quot, g.val_quot@, GroupLabel::ValQuot, u) && (
        if u is Err {
            r == u
        } else {
            exists|w: Result<(), GroupBindError>| #[trigger]
                optional_stage(
                    keccak,
                    poseidon,
                    s.val_quot_batch,
                    g.val_quot_batch@,
                    GroupLabel::ValQuotBatch,
                    w,
                ) && (if w is Err {
                    r == w
                } else {
                    checked(r, report)
                })
        });
    lemma_success(u);
    let w = choose|w: Result<(), GroupBindError>| #[trigger]
        optional_stage(
            keccak,
            poseidon,
            s.val_quot_batch,
            g.val_quot_batch@,
            GroupLabel::ValQuotBatch,
            w,
        ) && (if w is Err {
            r == w
        } else {
            checked(r, report)
        });
    lemma_success(w);
}

/// The trace groups cover their statements, and every trace path holds by its digests.
pub(crate) proof fn lemma_trace_chunks<
    K: Fn(&MmcsGroupPathAir, &[Val], &[u8]) -> bool,
    P: Fn(&[MmcsPathStatement], &PoseidonGroupFoldProof) -> bool,
>(keccak: K, poseidon: P, b: BindInput, s: LeafMmcsGroupStatements)
    requires
        trace_stage(keccak, poseidon, b, s, false, Ok(())),
        b.groups.val_trace@.len() > 0,
    ensures
        chunks_say(
            keccak,
            poseidon,
            b.trace_cover(s, false),
            b.groups.val_trace@,
            GroupLabel::ValTrace,
            Ok(()),
        ),
        b.trace_digests_report() is None,
{
    reveal(trace_stage);
    let r = Ok::<(), GroupBindError>(());
    let x = choose|x: Result<(), GroupBindError>| #[trigger]
        chunks_say(
            keccak,
            poseidon,
            b.trace_cover(s, false),
            b.groups.val_trace@,
            GroupLabel::ValTrace,
            x,
        ) && (match x {
            Err(e) => r == Err::<(), GroupBindError>(e),
            Ok(_) => checked(r, b.trace_digests_report()),
        });
    lemma_success(x);
}

/// Trace and quotient groups.
proof fn lemma_val_groups_stand<
    K: Fn(&MmcsGroupPathAir, &[Val], &[u8]) -> bool,
    P: Fn(&[MmcsPathStatement], &PoseidonGroupFoldProof) -> bool,
>(keccak: K, poseidon: P, b: BindInput, s: LeafMmcsGroupStatements, one_list: bool)
    requires
        val_group_stage(keccak, poseidon, b, s, one_list, Ok(())),
    ensures
        ({
            let g = b.groups;
            let trace = claims_of(s.val_trace@);
            &&& !one_list && g.val_trace@.len() > 0 ==> {
                ||| accepted_in_turn(keccak, poseidon, trace, g.val_trace@)
                ||| {
                    &&& g.val_quot@.len() == 0 && g.val_quot_batch@.len() == 0
                    &&& s.val_quot_batch matches Some(v) && accepted_in_turn(
                        keccak,
                        poseidon,
                        trace + claims_of(v@),
                        g.val_trace@,
                    )
                }
            }
            &&& g.val_quot@.len() > 0 ==> (s.val_quot matches Some(v) && accepted_in_turn(
                keccak,
                poseidon,
                claims_of(v@),
                g.val_quot@,
            ))
            &&& g.val_quot_batch@.len() > 0 ==> (s.val_quot_batch matches Some(v)
                && accepted_in_turn(keccak, poseidon, claims_of(v@), g.val_quot_batch@))
        }),
{
    let g = b.groups;
    let r = Ok::<(), GroupBindError>(());
    lemma_val_stages(keccak, poseidon, b, s, one_list);
    if g.val_quot@.len() > 0 {
        lemma_optional_accepted(keccak, poseidon, s.val_quot, g.val_quot@, GroupLabel::ValQuot);
    }
    if g.val_quot_batch@.len() > 0 {
        lemma_optional_accepted(
            keccak,
            poseidon,
            s.val_quot_batch,
            g.val_quot_batch@,
            GroupLabel::ValQuotBatch,
        );
    }
    if !one_list && g.val_trace@.len() > 0 {
        lemma_trace_chunks(keccak, poseidon, b, s);
        lemma_chunks_accepted(
            keccak,
            poseidon,
            b.trace_cover(s, one_list),
            g.val_trace@,
            GroupLabel::ValTrace,
        );
    }
}

/// First-layer and commit-phase groups.
proof fn lemma_chal_groups_stand<
    K: Fn(&MmcsGroupPathAir, &[Val], &[u8]) -> bool,
    P: Fn(&[MmcsPathStatement], &PoseidonGroupFoldProof) -> bool,
>(keccak: K, poseidon: P, b: BindInput, s: LeafMmcsGroupStatements)
    requires
        chal_group_stage(keccak, poseidon, b, s, false, Ok(())),
    ensures
        ({
            let g = b.groups;
            let first = optional_claims(s.chal_first_layer);
            let commit = flat_claims(s.chal_commit@);
            &&& g.chal_first_layer@.len() > 0 ==> (s.chal_first_layer matches Some(v)
                && accepted_in_turn(keccak, poseidon, claims_of(v@), g.chal_first_layer@))
            &&& g.chal_commit@.len() > 0 ==> {
                ||| accepted_in_turn(keccak, poseidon, commit, g.chal_commit@)
                ||| {
                    &&& g.chal_first_layer@.len() == 0
                    &&& accepted_in_turn(keccak, poseidon, first + commit, g.chal_commit@)
                }
            }
        }),
{
    let g = b.groups;
    lemma_chal_stages(keccak, poseidon, b, s, false);
    if chal_merged(g, s, false) {
        assert(chunks_say(
            keccak,
            poseidon,
            chal_claims(s),
            g.chal_commit@,
            GroupLabel::ChalMerged,
            Ok(()),
        )) by {
            reveal(chal_groups_stage);
        }
        lemma_chunks_accepted(
            keccak,
            poseidon,
            chal_claims(s),
            g.chal_commit@,
            GroupLabel::ChalMerged,
        );
    } else {
        lemma_chal_parts(keccak, poseidon, g, s);
        if g.chal_first_layer@.len() > 0 {
            lemma_optional_accepted(
                keccak,
                poseidon,
                s.chal_first_layer,
                g.chal_first_layer@,
                GroupLabel::ChalFirstLayer,
            );
        }
        if g.chal_commit@.len() > 0 {
            assert(s.chal_commit@.take(0) =~= Seq::empty());
            lemma_walk_accepted(keccak, poseidon, s.chal_commit@, g.chal_commit@, 0, 0, 0);
        }
    }
}

/// Every stage of bound first-layer and commit-phase paths succeeded.
pub(crate) proof fn lemma_chal_stages<
    K: Fn(&MmcsGroupPathAir, &[Val], &[u8]) -> bool,
    P: Fn(&[MmcsPathStatement], &PoseidonGroupFoldProof) -> bool,
>(keccak: K, poseidon: P, b: BindInput, s: LeafMmcsGroupStatements, one_list: bool)
    requires
        chal_group_stage(keccak, poseidon, b, s, one_list, Ok(())),
    ensures
        chal_groups_stage(keccak, poseidon, b.groups, s, one_list, Ok(())),
        b.chal_queries_report(s, one_list) is None,
{
    reveal(chal_group_stage);
    let r = Ok::<(), GroupBindError>(());
    let x = choose|x: Result<(), GroupBindError>| #[trigger]
        chal_groups_stage(keccak, poseidon, b.groups, s, one_list, x) && (if x is Err {
            r == x
        } else {
            checked(r, b.chal_queries_report(s, one_list))
        });
    lemma_success(x);
}

/// First-layer and commit-phase groups that are not merged.
proof fn lemma_chal_parts<
    K: Fn(&MmcsGroupPathAir, &[Val], &[u8]) -> bool,
    P: Fn(&[MmcsPathStatement], &PoseidonGroupFoldProof) -> bool,
>(keccak: K, poseidon: P, g: LeafMmcsFoldGroups, s: LeafMmcsGroupStatements)
    requires
        chal_groups_stage(keccak, poseidon, g, s, false, Ok(())),
        !chal_merged(g, s, false),
    ensures
        optional_stage(
            keccak,
            poseidon,
            s.chal_first_layer,
            g.chal_first_layer@,
            GroupLabel::ChalFirstLayer,
            Ok(()),
        ),
        g.chal_commit@.len() > 0 ==> commit_walk(
            keccak,
            poseidon,
            s.chal_commit@,
            g.chal_commit@,
            0,
            0,
            0,
            Ok(()),
        ),
{
    reveal(chal_groups_stage);
    let r = Ok::<(), GroupBindError>(());
    let x = choose|x: Result<(), GroupBindError>| #[trigger]
        optional_stage(
            keccak,
            poseidon,
            s.chal_first_layer,
            g.chal_first_layer@,
            GroupLabel::ChalFirstLayer,
            x,
        ) && (if x is Err {
            r == x
        } else if g.chal_commit@.len() == 0 {
            r == Ok::<(), GroupBindError>(())
        } else {
            commit_walk(keccak, poseidon, s.chal_commit@, g.chal_commit@, 0, 0, 0, r)
        });
    lemma_success(x);
}

} // verus!
