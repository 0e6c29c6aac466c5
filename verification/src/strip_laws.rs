//! What dropping siblings and proof bytes leaves of a bundle, and what it saves.
use vstd::prelude::*;

use crate::chal_mmcs::FriChalMmcsQueryProof;
use crate::fri_mmcs_bind::AggFriMmcsBundle;
use crate::fri_mmcs_path::FriMmcsPathProof;
use crate::mmcs_group_fold::{ascii_lower, eq_ignore_case, MmcsGroupFoldProof};
use crate::mmcs_strip::{
    bundle_stripped, chal_bytes, chal_dropped, chal_siblings_dropped, chal_stripped, lists_bytes,
    strip_setting, val_bytes, val_dropped, val_siblings_dropped, val_stripped, LeafMmcsFoldGroups,
};
use crate::path_strip::{path_bare, path_stripped, records_stripped};
use crate::val_mmcs::FriValMmcsQueryProof;

verus! {

/// The number of siblings that the first `n` records lose, by kind.
pub open spec fn val_lost(
    s: Seq<FriValMmcsQueryProof>,
    trace: bool,
    quot: bool,
    n: nat,
) -> int
    decreases n,
{
    if n == 0 {
        0
    } else {
        let q = s[n - 1];
        val_lost(s, trace, quot, (n - 1) as nat) + (if trace {
            q.trace_siblings@.len() as int
        } else {
            0
        }) + (if quot {
            q.quot_siblings@.len() as int
        } else {
            0
        })
    }
}

/// The bytes of the first `n` records, before and after.
proof fn lemma_val_saved_upto(
    before: Seq<FriValMmcsQueryProof>,
    after: Seq<FriValMmcsQueryProof>,
    groups: LeafMmcsFoldGroups,
    on: bool,
    n: nat,
)
    requires
        val_dropped(before, after, groups, on),
        n <= before.len(),
    ensures
        val_bytes(before.take(n as int)) - val_bytes(after.take(n as int)) == 32 * val_lost(
            before,
            on && groups.val_trace@.len() > 0,
            on && groups.val_quot@.len() > 0,
            n,
        ),
    decreases n,
{
    if n > 0 {
        let m = (n - 1) as nat;
        lemma_val_saved_upto(before, after, groups, on, m);
        assert(before.take(n as int).drop_last() =~= before.take(m as int));
        assert(after.take(n as int).drop_last() =~= after.take(m as int));
        assert(val_siblings_dropped(
            before[m as int],
            after[m as int],
            on && groups.val_trace@.len() > 0,
            on && groups.val_quot@.len() > 0,
        ));
    }
}

/// What dropping the siblings of value openings leaves and saves: trace siblings go where the
/// trace is grouped and quotient siblings where the quotients are, nothing else goes, and the
/// bytes saved are 32 for each sibling that went. Where dropping is off nothing goes.
pub proof fn lemma_val_dropping(
    before: Seq<FriValMmcsQueryProof>,
    after: Seq<FriValMmcsQueryProof>,
    groups: LeafMmcsFoldGroups,
    on: bool,
)
    requires
        val_dropped(before, after, groups, on),
    ensures
        after.len() == before.len(),
        forall|q: int|
            0 <= q < before.len() ==> {
                let a = before[q];
                let b = #[trigger] after[q];
                &&& b.trace_index == a.trace_index && b.quot_index == a.quot_index
                &&& b.trace_path == a.trace_path && b.quot_path == a.quot_path
                &&& b.quot_batch == a.quot_batch
                &&& on && groups.val_trace@.len() > 0 ==> b.trace_siblings@.len() == 0
                &&& !on || groups.val_trace@.len() == 0 ==> b.trace_siblings == a.trace_siblings
                &&& on && groups.val_quot@.len() > 0 ==> b.quot_siblings@.len() == 0
                &&& !on || groups.val_quot@.len() == 0 ==> b.quot_siblings == a.quot_siblings
            },
        val_bytes(before) - val_bytes(after) == 32 * val_lost(
            before,
            on && groups.val_trace@.len() > 0,
            on && groups.val_quot@.len() > 0,
            before.len(),
        ),
{
    lemma_val_saved_upto(before, after, groups, on, before.len());
    assert(before.take(before.len() as int) =~= before);
    assert(after.take(before.len() as int) =~= after);
    assert forall|q: int| 0 <= q < before.len() implies {
        let a = before[q];
        let b = #[trigger] after[q];
        &&& b.trace_index == a.trace_index && b.quot_index == a.quot_index
        &&& b.trace_path == a.trace_path && b.quot_path == a.quot_path
        &&& b.quot_batch == a.quot_batch
        &&& on && groups.val_trace@.len() > 0 ==> b.trace_siblings@.len() == 0
        &&& !on || groups.val_trace@.len() == 0 ==> b.trace_siblings == a.trace_siblings
        &&& on && groups.val_quot@.len() > 0 ==> b.quot_siblings@.len() == 0
        &&& !on || groups.val_quot@.len() == 0 ==> b.quot_siblings == a.quot_siblings
    } by {
        assert(val_siblings_dropped(
            before[q],
            after[q],
            on && groups.val_trace@.len() > 0,
            on && groups.val_quot@.len() > 0,
        ));
    }
}

/// The siblings of a value opening take 32 bytes each.
pub proof fn lemma_val_bytes_push(s: Seq<FriValMmcsQueryProof>, q: FriValMmcsQueryProof)
    ensures
        val_bytes(Seq::empty()) == 0,
        val_bytes(s.push(q)) == val_bytes(s) + 32 * (q.trace_siblings@.len()
            + q.quot_siblings@.len() + match q.quot_batch {
            Some(b) => b.siblings@.len(),
            None => 0,
        }),
{
    assert(s.push(q).drop_last() =~= s);
}

/// The siblings of a folding opening take 32 bytes each: those of the first layer and those of
/// each round.
pub proof fn lemma_chal_bytes_push(
    s: Seq<FriChalMmcsQueryProof>,
    q: FriChalMmcsQueryProof,
    t: Seq<Vec<[u8; 32]>>,
    v: Vec<[u8; 32]>,
)
    ensures
        chal_bytes(Seq::empty()) == 0,
        chal_bytes(s.push(q)) == chal_bytes(s) + 32 * q.first_layer.siblings@.len() + lists_bytes(
            q.commit_siblings@,
        ),
        lists_bytes(Seq::empty()) == 0,
        lists_bytes(t.push(v)) == lists_bytes(t) + 32 * v@.len(),
{
    assert(s.push(q).drop_last() =~= s);
    assert(t.push(v).drop_last() =~= t);
}

/// Some commit-phase group is of a depth.
pub open spec fn groups_depth(groups: LeafMmcsFoldGroups, depth: u32) -> bool {
    exists|i: int|
        0 <= i < groups.chal_commit@.len() && match #[trigger] groups.chal_commit@[i] {
            MmcsGroupFoldProof::Keccak(g) => g.depth == depth,
            MmcsGroupFoldProof::Poseidon(g) => g.depth == depth,
        }
}

/// One list of groups stands for the first layer and every round.
pub open spec fn all_rounds_grouped(groups: LeafMmcsFoldGroups) -> bool {
    groups.pcs_combined || (groups.chal_first_layer@.len() == 0 && groups.chal_commit@.len() > 0)
}

/// What dropping the siblings of folding openings leaves: first-layer siblings go where any
/// group stands for them, a round's where one list stands for all or a group has its depth, and
/// nothing else goes. Where dropping is off nothing goes.
pub proof fn lemma_chal_dropping(
    before: Seq<FriChalMmcsQueryProof>,
    after: Seq<FriChalMmcsQueryProof>,
    groups: LeafMmcsFoldGroups,
    on: bool,
    q: int,
    i: int,
)
    requires
        chal_dropped(before, after, groups, on),
        0 <= q < before.len(),
        0 <= i < before[q].commit_siblings@.len(),
    ensures
        after.len() == before.len(),
        ({
            let a = before[q];
            let b = after[q];
            let any = groups.chal_first_layer@.len() > 0 || groups.chal_commit@.len() > 0
                || groups.pcs_combined;
            let round = on && (all_rounds_grouped(groups) || (i < a.commit_paths@.len()
                && groups_depth(groups, a.commit_paths@[i].depth)));
            &&& b.commit_indices == a.commit_indices
            &&& b.commit_paths == a.commit_paths
            &&& b.commit_siblings@.len() == a.commit_siblings@.len()
            &&& b.first_layer.index == a.first_layer.index
            &&& b.first_layer.leaf_rows == a.first_layer.leaf_rows
            &&& b.first_layer.leaf_digests == a.first_layer.leaf_digests
            &&& b.first_layer.sib_layer_digests == a.first_layer.sib_layer_digests
            &&& b.first_layer.inject_digests == a.first_layer.inject_digests
            &&& on && any ==> b.first_layer.siblings@.len() == 0
            &&& !(on && any) ==> b.first_layer.siblings == a.first_layer.siblings
            &&& round ==> b.commit_siblings@[i]@.len() == 0
            &&& !round ==> b.commit_siblings@[i] == a.commit_siblings@[i]
        }),
{
    let c = crate::mmcs_strip::chal_cover(groups, on);
    let a = before[q];
    let b = after[q];
    assert(chal_siblings_dropped(a, b, c));
    assert(b.commit_siblings@[i] == b.commit_siblings@[i]);
    if i < a.commit_paths@.len() {
        let d = a.commit_paths@[i].depth;
        if c.depths.contains(d) {
            let k = choose|k: int| 0 <= k < c.depths.len() && c.depths[k] == d;
            assert(groups.chal_commit@[k].depth_spec() == d);
            assert(groups_depth(groups, d));
        }
        if on && groups_depth(groups, d) {
            let k = choose|k: int|
                0 <= k < groups.chal_commit@.len() && match #[trigger] groups.chal_commit@[k] {
                    MmcsGroupFoldProof::Keccak(g) => g.depth == d,
                    MmcsGroupFoldProof::Poseidon(g) => g.depth == d,
                };
            assert(c.depths[k] == d);
        }
    }
}

/// The setting is on where there is no text, does not look at the case of letters, and a text
/// that turns it on has one letter or four.
pub proof fn lemma_setting_text(a: Seq<char>, b: Seq<char>)
    ensures
        strip_setting(None),
        strip_setting(Some(a)) ==> a.len() == 1 || a.len() == 4,
        eq_ignore_case(a, b) ==> strip_setting(Some(a)) == strip_setting(Some(b)),
{
    reveal_strlit("1");
    reveal_strlit("true");
    if eq_ignore_case(a, b) {
        lemma_same_text(a, b, "1"@);
        lemma_same_text(a, b, "true"@);
    }
}

/// Texts that are equal up to case are equal to the same texts.
proof fn lemma_same_text(a: Seq<char>, b: Seq<char>, c: Seq<char>)
    requires
        eq_ignore_case(a, b),
    ensures
        eq_ignore_case(a, c) == eq_ignore_case(b, c),
{
    if eq_ignore_case(a, c) {
        assert forall|i: int| 0 <= i < b.len() implies ascii_lower(
            #[trigger] b[i],
        ) == ascii_lower(c[i]) by {
            assert(ascii_lower(a[i]) == ascii_lower(b[i]));
            assert(ascii_lower(a[i]) == ascii_lower(c[i]));
        }
    }
    if eq_ignore_case(b, c) {
        assert forall|i: int| 0 <= i < a.len() implies ascii_lower(
            #[trigger] a[i],
        ) == ascii_lower(c[i]) by {
            assert(ascii_lower(b[i]) == ascii_lower(c[i]));
            assert(ascii_lower(a[i]) == ascii_lower(b[i]));
        }
    }
}

/// A path without its proof bytes keeps its digests, and carries no bytes at all.
pub proof fn lemma_stripped_path(a: FriMmcsPathProof, b: FriMmcsPathProof)
    requires
        path_stripped(a, b),
    ensures
        b.depth == a.depth,
        b.leaf_width == a.leaf_width,
        b.leaf_digest == a.leaf_digest,
        b.layer_digests == a.layer_digests,
        b.leaf_keccak.digest == a.leaf_keccak.digest,
        b.compress_starks@.len() == a.compress_starks@.len(),
        forall|i: int|
            0 <= i < a.compress_starks@.len() ==> (#[trigger] b.compress_starks@[i]).digest
                == a.compress_starks@[i].digest,
        path_bare(b),
        b.fold_stark@.len() == 0,
        b.leaf_keccak.stark@.len() == 0,
        forall|i: int|
            0 <= i < b.compress_starks@.len() ==> (#[trigger] b.compress_starks@[i]).stark@.len()
                == 0,
{
    assert(records_stripped(a.compress_starks@, b.compress_starks@));
}

/// A bundle without its proof bytes keeps every position and every sibling.
pub proof fn lemma_stripped_bundle(a: AggFriMmcsBundle, b: AggFriMmcsBundle, q: int)
    requires
        bundle_stripped(a, b),
    ensures
        b.val@.len() == a.val@.len(),
        b.chal@.len() == a.chal@.len(),
        0 <= q < a.val@.len() ==> {
            let (x, y) = (a.val@[q], b.val@[q]);
            &&& y.trace_index == x.trace_index && y.quot_index == x.quot_index
            &&& y.trace_siblings == x.trace_siblings && y.quot_siblings == x.quot_siblings
            &&& path_bare(y.trace_path) && path_bare(y.quot_path)
            &&& y.quot_batch is Some <==> x.quot_batch is Some
            &&& y.quot_batch is Some ==> y.quot_batch->0.siblings == x.quot_batch->0.siblings
        },
        0 <= q < a.chal@.len() ==> {
            let (x, y) = (a.chal@[q], b.chal@[q]);
            &&& y.commit_indices == x.commit_indices && y.commit_siblings == x.commit_siblings
            &&& y.first_layer.siblings == x.first_layer.siblings
            &&& y.commit_paths@.len() == x.commit_paths@.len()
            &&& forall|i: int|
                0 <= i < x.commit_paths@.len() ==> path_bare(#[trigger] y.commit_paths@[i])
        },
{
    if 0 <= q < a.val@.len() {
        assert(val_stripped(a.val@[q], b.val@[q]));
        lemma_stripped_path(a.val@[q].trace_path, b.val@[q].trace_path);
        lemma_stripped_path(a.val@[q].quot_path, b.val@[q].quot_path);
    }
    if 0 <= q < a.chal@.len() {
        assert(chal_stripped(a.chal@[q], b.chal@[q]));
        assert forall|i: int| 0 <= i < a.chal@[q].commit_paths@.len() implies path_bare(
            #[trigger] b.chal@[q].commit_paths@[i],
        ) by {
            lemma_stripped_path(a.chal@[q].commit_paths@[i], b.chal@[q].commit_paths@[i]);
        }
    }
}

} // verus!
