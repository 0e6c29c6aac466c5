//! Bundles of paths without nested proof bytes, and without siblings that a proof holds already.
use vstd::prelude::*;

use crate::chal_mmcs::FriChalMmcsQueryProof;
use crate::fri_mmcs_bind::AggFriMmcsBundle;
use crate::fri_mmcs_path::FriMmcsPathProof;
use crate::mmcs_group_fold::{eq_ignore_case, text_eq_ignore_case, MmcsGroupFoldProof};
use crate::path_strip::{
    batch_stripped, path_stripped, strip_chal_batch_starks, strip_fri_mmcs_path_starks,
};
use crate::val_mmcs::{trace_siblings, FriValMmcsQueryProof};

verus! {

/// Version byte of the path groups of a leaf certificate.
pub const LEAF_MMCS_FOLD_V: u8 = 6;

/// Group proofs attached to a leaf certificate, by kind of opening. An empty list means that the
/// kind is not grouped.
#[derive(Debug, Clone, PartialEq, Eq)]
pub struct LeafMmcsFoldGroups {
    pub val_trace: Vec<MmcsGroupFoldProof>,
    pub val_quot: Vec<MmcsGroupFoldProof>,
    pub val_quot_batch: Vec<MmcsGroupFoldProof>,
    pub chal_first_layer: Vec<MmcsGroupFoldProof>,
    pub chal_commit: Vec<MmcsGroupFoldProof>,
    /// `val_trace` covers every path.
    pub pcs_combined: bool,
}

/// No kind is grouped.
pub open spec fn ungrouped(g: LeafMmcsFoldGroups) -> bool {
    &&& g.val_trace@.len() == 0
    &&& g.val_quot@.len() == 0
    &&& g.val_quot_batch@.len() == 0
    &&& g.chal_first_layer@.len() == 0
    &&& g.chal_commit@.len() == 0
    &&& !g.pcs_combined
}

impl Default for LeafMmcsFoldGroups {
    fn default() -> (r: Self)
        ensures
            ungrouped(r),
    {
        LeafMmcsFoldGroups {
            val_trace: Vec::new(),
            val_quot: Vec::new(),
            val_quot_batch: Vec::new(),
            chal_first_layer: Vec::new(),
            chal_commit: Vec::new(),
            pcs_combined: false,
        }
    }
}

/// `b` is the record `a` without nested proof bytes.
pub open spec fn val_stripped(a: FriValMmcsQueryProof, b: FriValMmcsQueryProof) -> bool {
    &&& b.trace_index == a.trace_index
    &&& b.quot_index == a.quot_index
    &&& b.trace_siblings == a.trace_siblings
    &&& b.quot_siblings == a.quot_siblings
    &&& path_stripped(a.trace_path, b.trace_path)
    &&& path_stripped(a.quot_path, b.quot_path)
    &&& match a.quot_batch {
        Some(x) => b.quot_batch matches Some(y) && batch_stripped(x, y),
        None => b.quot_batch is None,
    }
}

/// `b` is the record `a` without nested proof bytes.
pub open spec fn chal_stripped(a: FriChalMmcsQueryProof, b: FriChalMmcsQueryProof) -> bool {
    &&& batch_stripped(a.first_layer, b.first_layer)
    &&& b.commit_indices == a.commit_indices
    &&& b.commit_siblings == a.commit_siblings
    &&& b.commit_paths@.len() == a.commit_paths@.len()
    &&& forall|i: int|
        0 <= i < a.commit_paths@.len() ==> path_stripped(
            a.commit_paths@[i],
            #[trigger] b.commit_paths@[i],
        )
}

/// `b` is the bundle `a` without nested proof bytes.
pub open spec fn bundle_stripped(a: AggFriMmcsBundle, b: AggFriMmcsBundle) -> bool {
    &&& b.val@.len() == a.val@.len()
    &&& forall|q: int| 0 <= q < a.val@.len() ==> val_stripped(a.val@[q], #[trigger] b.val@[q])
    &&& b.chal@.len() == a.chal@.len()
    &&& forall|q: int| 0 <= q < a.chal@.len() ==> chal_stripped(a.chal@[q], #[trigger] b.chal@[q])
}

fn strip_paths(paths: &mut Vec<FriMmcsPathProof>)
    ensures
        final(paths)@.len() == old(paths)@.len(),
        forall|i: int|
            0 <= i < old(paths)@.len() ==> path_stripped(
                old(paths)@[i],
                #[trigger] final(paths)@[i],
            ),
{
    let ghost p0 = paths@;
    let n: usize = paths.len();
    let mut i: usize = 0;
    while i < n
        invariant
            i <= n,
            n == p0.len(),
            paths@.len() == n,
            forall|j: int| 0 <= j < i ==> path_stripped(p0[j], #[trigger] paths@[j]),
            forall|j: int| i <= j < n ==> paths@[j] == p0[j],
        decreases n - i,
    {
        strip_fri_mmcs_path_starks(&mut paths[i]);
        i += 1;
    }
}

fn strip_val_query(qp: &mut FriValMmcsQueryProof)
    ensures
        val_stripped(*old(qp), *final(qp)),
{
    strip_fri_mmcs_path_starks(&mut qp.trace_path);
    strip_fri_mmcs_path_starks(&mut qp.quot_path);
    match &mut qp.quot_batch {
        Some(b) => {
            strip_chal_batch_starks(b);
        },
        None => {},
    }
}

fn strip_chal_query(qp: &mut FriChalMmcsQueryProof)
    ensures
        chal_stripped(*old(qp), *final(qp)),
{
    strip_chal_batch_starks(&mut qp.first_layer);
    strip_paths(&mut qp.commit_paths);
}

/// Drops the nested proof bytes of every path. The paths stay, to be checked by their digests,
/// so nothing is grouped.
pub fn apply_leaf_mmcs_m4c_folds(bundle: &mut AggFriMmcsBundle) -> (r: LeafMmcsFoldGroups)
    ensures
        bundle_stripped(*old(bundle), *final(bundle)),
        ungrouped(r),
{
    let ghost b0 = *bundle;
    let n: usize = bundle.val.len();
    let mut i: usize = 0;
    while i < n
        invariant
            i <= n,
            n == b0.val@.len(),
            bundle.val@.len() == n,
            bundle.chal == b0.chal,
            forall|j: int| 0 <= j < i ==> val_stripped(b0.val@[j], #[trigger] bundle.val@[j]),
            forall|j: int| i <= j < n ==> bundle.val@[j] == b0.val@[j],
        decreases n - i,
    {
        strip_val_query(&mut bundle.val[i]);
        i += 1;
    }
    let m: usize = bundle.chal.len();
    let ghost v1 = bundle.val@;
    let mut i: usize = 0;
    while i < m
        invariant
            i <= m,
            m == b0.chal@.len(),
            bundle.chal@.len() == m,
            bundle.val@ == v1,
            forall|j: int| 0 <= j < i ==> chal_stripped(b0.chal@[j], #[trigger] bundle.chal@[j]),
            forall|j: int| i <= j < m ==> bundle.chal@[j] == b0.chal@[j],
        decreases m - i,
    {
        strip_chal_query(&mut bundle.chal[i]);
        i += 1;
    }
    LeafMmcsFoldGroups::default()
}

/// Name of the setting that keeps siblings on the wire.
pub const PCS_STRIP_MMCS_SIBLINGS_ENV: &'static str = "WQC_PCS_STRIP_MMCS_SIBLINGS";

/// Whether grouped siblings are dropped, by the text of the setting: on unless it is set to
/// something other than `1` or `true`.
pub open spec fn strip_setting(text: Option<Seq<char>>) -> bool {
    match text {
        Some(v) => eq_ignore_case(v, "1"@) || eq_ignore_case(v, "true"@),
        None => true,
    }
}

/// Whether grouped siblings are dropped, by the text of the setting.
pub fn mmcs_sibling_strip_enabled(text: Option<&str>) -> (r: bool)
    ensures
        r == strip_setting(
            match text {
                Some(s) => Some(s@),
                None => None,
            },
        ),
{
    match text {
        Some(v) => text_eq_ignore_case(v, "1") || text_eq_ignore_case(v, "true"),
        None => true,
    }
}

/// Bytes of the siblings of one record.
pub open spec fn val_query_bytes(q: FriValMmcsQueryProof) -> nat {
    32 * q.trace_siblings@.len() + 32 * q.quot_siblings@.len() + match q.quot_batch {
        Some(b) => 32 * b.siblings@.len(),
        None => 0,
    }
}

/// Bytes of the siblings of a list of records.
pub open spec fn val_bytes(s: Seq<FriValMmcsQueryProof>) -> nat
    decreases s.len(),
{
    if s.len() == 0 {
        0
    } else {
        val_bytes(s.drop_last()) + val_query_bytes(s.last())
    }
}

/// A longer prefix holds at least as many bytes.
proof fn lemma_val_bytes_prefix(s: Seq<FriValMmcsQueryProof>, i: int)
    requires
        0 <= i < s.len(),
    ensures
        val_bytes(s.take(i + 1)) == val_bytes(s.take(i)) + val_query_bytes(s[i]),
        val_bytes(s.take(i + 1)) <= val_bytes(s),
    decreases s.len() - i,
{
    assert(s.take(i + 1).drop_last() =~= s.take(i));
    if i + 1 < s.len() {
        lemma_val_bytes_prefix(s, i + 1);
    } else {
        assert(s.take(i + 1) =~= s);
    }
}

/// Bytes of the siblings of trace and quotient records.
pub fn val_mmcs_sibling_wire_bytes(bundle: &Vec<FriValMmcsQueryProof>) -> (r: usize)
    requires
        val_bytes(bundle@) <= usize::MAX,
    ensures
        r == val_bytes(bundle@),
{
    let mut total: usize = 0;
    let mut i: usize = 0;
    while i < bundle.len()
        invariant
            i <= bundle.len(),
            total == val_bytes(bundle@.take(i as int)),
            val_bytes(bundle@) <= usize::MAX,
        decreases bundle.len() - i,
    {
        proof {
            lemma_val_bytes_prefix(bundle@, i as int);
        }
        let q = &bundle[i];
        let batch: usize = match &q.quot_batch {
            Some(b) => b.siblings.len() * 32,
            None => 0,
        };
        total = total + (q.trace_siblings.len() * 32 + q.quot_siblings.len() * 32 + batch);
        i += 1;
    }
    proof {
        assert(bundle@.take(i as int) =~= bundle@);
    }
    total
}

/// `b` is the record `a` without the siblings of the grouped kinds.
pub open spec fn val_siblings_dropped(
    a: FriValMmcsQueryProof,
    b: FriValMmcsQueryProof,
    trace: bool,
    quot: bool,
) -> bool {
    &&& b.trace_index == a.trace_index
    &&& b.quot_index == a.quot_index
    &&& b.trace_path == a.trace_path
    &&& b.quot_path == a.quot_path
    &&& b.quot_batch == a.quot_batch
    &&& if trace {
        b.trace_siblings@.len() == 0
    } else {
        b.trace_siblings == a.trace_siblings
    }
    &&& if quot {
        b.quot_siblings@.len() == 0
    } else {
        b.quot_siblings == a.quot_siblings
    }
}

/// Dropping siblings leaves no more bytes.
proof fn lemma_val_dropped_bytes(
    a: Seq<FriValMmcsQueryProof>,
    b: Seq<FriValMmcsQueryProof>,
    trace: bool,
    quot: bool,
)
    requires
        a.len() == b.len(),
        forall|q: int| 0 <= q < a.len() ==> val_siblings_dropped(a[q], #[trigger] b[q], trace, quot),
    ensures
        val_bytes(b) <= val_bytes(a),
    decreases a.len(),
{
    if a.len() > 0 {
        let n = a.len() - 1;
        assert(val_siblings_dropped(a[n], b[n], trace, quot));
        assert forall|q: int| 0 <= q < n implies val_siblings_dropped(
            a.drop_last()[q],
            #[trigger] b.drop_last()[q],
            trace,
            quot,
        ) by {
            assert(val_siblings_dropped(a[q], b[q], trace, quot));
        }
        lemma_val_dropped_bytes(a.drop_last(), b.drop_last(), trace, quot);
    }
}

/// `after` is `before` without the trace and quotient siblings that groups cover, where dropping
/// is on.
pub open spec fn val_dropped(
    before: Seq<FriValMmcsQueryProof>,
    after: Seq<FriValMmcsQueryProof>,
    groups: LeafMmcsFoldGroups,
    on: bool,
) -> bool {
    &&& after.len() == before.len()
    &&& forall|q: int|
        0 <= q < before.len() ==> val_siblings_dropped(
            before[q],
            #[trigger] after[q],
            on && groups.val_trace@.len() > 0,
            on && groups.val_quot@.len() > 0,
        )
}

/// Drops the trace and quotient siblings that groups cover; returns the bytes saved. `text` is
/// that of the setting [`PCS_STRIP_MMCS_SIBLINGS_ENV`].
pub fn strip_val_mmcs_siblings_for_groups(
    bundle: &mut Vec<FriValMmcsQueryProof>,
    groups: &LeafMmcsFoldGroups,
    text: Option<&str>,
) -> (saved: usize)
    requires
        val_bytes(old(bundle)@) <= usize::MAX,
    ensures
        ({
            let on = strip_setting(
                match text {
                    Some(s) => Some(s@),
                    None => None,
                },
            );
            &&& val_dropped(old(bundle)@, final(bundle)@, *groups, on)
            &&& saved == val_bytes(old(bundle)@) - val_bytes(final(bundle)@)
        }),
{
    let ghost b0 = bundle@;
    if !mmcs_sibling_strip_enabled(text) {
        return 0;
    }
    let before: usize = val_mmcs_sibling_wire_bytes(bundle);
    let trace: bool = groups.val_trace.len() > 0;
    let quot: bool = groups.val_quot.len() > 0;
    let n: usize = bundle.len();
    let mut q: usize = 0;
    while q < n
        invariant
            q <= n,
            n == b0.len(),
            bundle@.len() == n,
            forall|j: int|
                0 <= j < q ==> val_siblings_dropped(b0[j], #[trigger] bundle@[j], trace, quot),
            forall|j: int| q <= j < n ==> bundle@[j] == b0[j],
        decreases n - q,
    {
        if trace {
            bundle[q].trace_siblings = Vec::new();
        }
        if quot {
            bundle[q].quot_siblings = Vec::new();
        }
        q += 1;
    }
    proof {
        lemma_val_dropped_bytes(b0, bundle@, trace, quot);
    }
    before - val_mmcs_sibling_wire_bytes(bundle)
}

/// Bytes of a list of sibling lists.
pub open spec fn lists_bytes(s: Seq<Vec<[u8; 32]>>) -> nat
    decreases s.len(),
{
    if s.len() == 0 {
        0
    } else {
        lists_bytes(s.drop_last()) + 32 * s.last()@.len()
    }
}

/// Bytes of the siblings of one record.
pub open spec fn chal_query_bytes(q: FriChalMmcsQueryProof) -> nat {
    32 * q.first_layer.siblings@.len() + lists_bytes(q.commit_siblings@)
}

/// Bytes of the siblings of a list of records.
pub open spec fn chal_bytes(s: Seq<FriChalMmcsQueryProof>) -> nat
    decreases s.len(),
{
    if s.len() == 0 {
        0
    } else {
        chal_bytes(s.drop_last()) + chal_query_bytes(s.last())
    }
}

proof fn lemma_lists_bytes_prefix(s: Seq<Vec<[u8; 32]>>, i: int)
    requires
        0 <= i < s.len(),
    ensures
        lists_bytes(s.take(i + 1)) == lists_bytes(s.take(i)) + 32 * s[i]@.len(),
        lists_bytes(s.take(i + 1)) <= lists_bytes(s),
    decreases s.len() - i,
{
    assert(s.take(i + 1).drop_last() =~= s.take(i));
    if i + 1 < s.len() {
        lemma_lists_bytes_prefix(s, i + 1);
    } else {
        assert(s.take(i + 1) =~= s);
    }
}

proof fn lemma_chal_bytes_prefix(s: Seq<FriChalMmcsQueryProof>, i: int)
    requires
        0 <= i < s.len(),
    ensures
        chal_bytes(s.take(i + 1)) == chal_bytes(s.take(i)) + chal_query_bytes(s[i]),
        chal_bytes(s.take(i + 1)) <= chal_bytes(s),
    decreases s.len() - i,
{
    assert(s.take(i + 1).drop_last() =~= s.take(i));
    if i + 1 < s.len() {
        lemma_chal_bytes_prefix(s, i + 1);
    } else {
        assert(s.take(i + 1) =~= s);
    }
}

/// Bytes of a list of sibling lists.
fn count_lists(s: &Vec<Vec<[u8; 32]>>) -> (r: usize)
    requires
        lists_bytes(s@) <= usize::MAX,
    ensures
        r == lists_bytes(s@),
{
    let mut total: usize = 0;
    let mut i: usize = 0;
    while i < s.len()
        invariant
            i <= s.len(),
            total == lists_bytes(s@.take(i as int)),
            lists_bytes(s@) <= usize::MAX,
        decreases s.len() - i,
    {
        proof {
            lemma_lists_bytes_prefix(s@, i as int);
        }
        total = total + s[i].len() * 32;
        i += 1;
    }
    proof {
        assert(s@.take(i as int) =~= s@);
    }
    total
}

/// Bytes of the siblings of first-layer and commit-phase records.
pub fn chal_mmcs_sibling_wire_bytes(bundle: &Vec<FriChalMmcsQueryProof>) -> (r: usize)
    requires
        chal_bytes(bundle@) <= usize::MAX,
    ensures
        r == chal_bytes(bundle@),
{
    let mut total: usize = 0;
    let mut i: usize = 0;
    while i < bundle.len()
        invariant
            i <= bundle.len(),
            total == chal_bytes(bundle@.take(i as int)),
            chal_bytes(bundle@) <= usize::MAX,
        decreases bundle.len() - i,
    {
        proof {
            lemma_chal_bytes_prefix(bundle@, i as int);
        }
        let q = &bundle[i];
        total = total + (q.first_layer.siblings.len() * 32 + count_lists(&q.commit_siblings));
        i += 1;
    }
    proof {
        assert(bundle@.take(i as int) =~= bundle@);
    }
    total
}

/// Which siblings of first-layer and commit-phase records groups cover.
pub struct ChalCover {
    pub first: bool,
    /// Every commit-phase round is covered.
    pub all: bool,
    /// The depths of covered commit-phase rounds.
    pub depths: Seq<u32>,
}

/// Which siblings are dropped, where dropping is on.
pub open spec fn chal_cover(g: LeafMmcsFoldGroups, on: bool) -> ChalCover {
    let merged = g.chal_first_layer@.len() == 0 && g.chal_commit@.len() > 0;
    ChalCover {
        first: on && (g.chal_first_layer@.len() > 0 || merged || g.pcs_combined),
        all: on && (merged || g.pcs_combined),
        depths: if on {
            Seq::new(g.chal_commit@.len(), |i: int| g.chal_commit@[i].depth_spec())
        } else {
            Seq::empty()
        },
    }
}

/// Whether the siblings of round `i` of a record are dropped.
pub open spec fn round_covered(c: ChalCover, q: FriChalMmcsQueryProof, i: int) -> bool {
    c.all || (i < q.commit_paths@.len() && c.depths.contains(q.commit_paths@[i].depth))
}

/// `b` is the record `a` without the covered siblings.
pub open spec fn chal_siblings_dropped(
    a: FriChalMmcsQueryProof,
    b: FriChalMmcsQueryProof,
    c: ChalCover,
) -> bool {
    &&& b.first_layer.index == a.first_layer.index
    &&& b.first_layer.leaf_rows == a.first_layer.leaf_rows
    &&& b.first_layer.leaf_keccs == a.first_layer.leaf_keccs
    &&& b.first_layer.leaf_digests == a.first_layer.leaf_digests
    &&& b.first_layer.sib_compresses == a.first_layer.sib_compresses
    &&& b.first_layer.sib_layer_digests == a.first_layer.sib_layer_digests
    &&& b.first_layer.inject_compresses == a.first_layer.inject_compresses
    &&& b.first_layer.inject_digests == a.first_layer.inject_digests
    &&& b.first_layer.inject_leaf_indices == a.first_layer.inject_leaf_indices
    &&& b.commit_indices == a.commit_indices
    &&& b.commit_paths == a.commit_paths
    &&& if c.first {
        b.first_layer.siblings@.len() == 0
    } else {
        b.first_layer.siblings == a.first_layer.siblings
    }
    &&& b.commit_siblings@.len() == a.commit_siblings@.len()
    &&& forall|i: int|
        0 <= i < a.commit_siblings@.len() ==> if round_covered(c, a, i) {
            (#[trigger] b.commit_siblings@[i])@.len() == 0
        } else {
            b.commit_siblings@[i] == a.commit_siblings@[i]
        }
}

proof fn lemma_lists_shrink(a: Seq<Vec<[u8; 32]>>, b: Seq<Vec<[u8; 32]>>)
    requires
        a.len() == b.len(),
        forall|i: int| 0 <= i < a.len() ==> (#[trigger] b[i])@.len() <= a[i]@.len(),
    ensures
        lists_bytes(b) <= lists_bytes(a),
    decreases a.len(),
{
    if a.len() > 0 {
        let n = a.len() - 1;
        assert(b[n]@.len() <= a[n]@.len());
        lemma_lists_shrink(a.drop_last(), b.drop_last());
    }
}

proof fn lemma_chal_dropped_bytes(
    a: Seq<FriChalMmcsQueryProof>,
    b: Seq<FriChalMmcsQueryProof>,
    c: ChalCover,
)
    requires
        a.len() == b.len(),
        forall|q: int| 0 <= q < a.len() ==> chal_siblings_dropped(a[q], #[trigger] b[q], c),
    ensures
        chal_bytes(b) <= chal_bytes(a),
    decreases a.len(),
{
    if a.len() > 0 {
        let n = a.len() - 1;
        assert(chal_siblings_dropped(a[n], b[n], c));
        assert forall|i: int| 0 <= i < a[n].commit_siblings@.len() implies (
        #[trigger] b[n].commit_siblings@[i])@.len() <= a[n].commit_siblings@[i]@.len() by {}
        lemma_lists_shrink(a[n].commit_siblings@, b[n].commit_siblings@);
        assert forall|q: int| 0 <= q < n implies chal_siblings_dropped(
            a.drop_last()[q],
            #[trigger] b.drop_last()[q],
            c,
        ) by {
            assert(chal_siblings_dropped(a[q], b[q], c));
        }
        lemma_chal_dropped_bytes(a.drop_last(), b.drop_last(), c);
    }
}

/// Whether some group is of the given depth.
pub fn some_depth(groups: &Vec<MmcsGroupFoldProof>, depth: u32) -> (r: bool)
    ensures
        r == exists|i: int| 0 <= i < groups@.len() && (#[trigger] groups@[i]).depth_spec() == depth,
{
    let mut i: usize = 0;
    while i < groups.len()
        invariant
            i <= groups.len(),
            forall|j: int| 0 <= j < i ==> (#[trigger] groups@[j]).depth_spec() != depth,
        decreases groups.len() - i,
    {
        if groups[i].depth() == depth {
            return true;
        }
        i += 1;
    }
    false
}

/// Drops the covered siblings of one record.
fn drop_chal_siblings(
    qp: &mut FriChalMmcsQueryProof,
    groups: &LeafMmcsFoldGroups,
    first: bool,
    all: bool,
)
    requires
        first == chal_cover(*groups, true).first,
        all == chal_cover(*groups, true).all,
    ensures
        chal_siblings_dropped(*old(qp), *final(qp), chal_cover(*groups, true)),
{
    let ghost q0 = *qp;
    let ghost c = chal_cover(*groups, true);
    if first {
        qp.first_layer.siblings = Vec::new();
    }
    let ghost q1 = *qp;
    let n: usize = qp.commit_siblings.len();
    let mut i: usize = 0;
    while i < n
        invariant
            i <= n,
            n == q0.commit_siblings@.len(),
            c == chal_cover(*groups, true),
            all == c.all,
            qp.commit_siblings@.len() == n,
            qp.first_layer == q1.first_layer,
            qp.commit_indices == q0.commit_indices,
            qp.commit_paths == q0.commit_paths,
            forall|j: int|
                0 <= j < i ==> if round_covered(c, q0, j) {
                    (#[trigger] qp.commit_siblings@[j])@.len() == 0
                } else {
                    qp.commit_siblings@[j] == q0.commit_siblings@[j]
                },
            forall|j: int| i <= j < n ==> qp.commit_siblings@[j] == q0.commit_siblings@[j],
        decreases n - i,
    {
        let covered: bool = all || (i < qp.commit_paths.len() && some_depth(
            &groups.chal_commit,
            qp.commit_paths[i].depth,
        ));
        proof {
            if i < q0.commit_paths@.len() {
                let d = q0.commit_paths@[i as int].depth;
                if exists|k: int|
                    0 <= k < groups.chal_commit@.len() && (
                    #[trigger] groups.chal_commit@[k]).depth_spec() == d {
                    let k = choose|k: int|
                        0 <= k < groups.chal_commit@.len() && (
                        #[trigger] groups.chal_commit@[k]).depth_spec() == d;
                    assert(c.depths[k] == d);
                }
                if c.depths.contains(d) {
                    let k = choose|k: int| 0 <= k < c.depths.len() && c.depths[k] == d;
                    assert(groups.chal_commit@[k].depth_spec() == d);
                }
            }
            assert(covered == round_covered(c, q0, i as int));
        }
        if covered {
            qp.commit_siblings.set(i, Vec::new());
        }
        i += 1;
    }
}

/// `after` is `before` without the first-layer and commit-phase siblings that groups cover, where
/// dropping is on.
pub open spec fn chal_dropped(
    before: Seq<FriChalMmcsQueryProof>,
    after: Seq<FriChalMmcsQueryProof>,
    groups: LeafMmcsFoldGroups,
    on: bool,
) -> bool {
    &&& after.len() == before.len()
    &&& forall|q: int|
        0 <= q < before.len() ==> chal_siblings_dropped(
            before[q],
            #[trigger] after[q],
            chal_cover(groups, on),
        )
}

/// Drops the first-layer and commit-phase siblings that groups cover; returns the bytes saved.
/// `text` is that of the setting [`PCS_STRIP_MMCS_SIBLINGS_ENV`].
pub fn strip_chal_mmcs_siblings_for_groups(
    bundle: &mut Vec<FriChalMmcsQueryProof>,
    groups: &LeafMmcsFoldGroups,
    text: Option<&str>,
) -> (saved: usize)
    requires
        chal_bytes(old(bundle)@) <= usize::MAX,
    ensures
        ({
            let on = strip_setting(
                match text {
                    Some(s) => Some(s@),
                    None => None,
                },
            );
            &&& chal_dropped(old(bundle)@, final(bundle)@, *groups, on)
            &&& saved == chal_bytes(old(bundle)@) - chal_bytes(final(bundle)@)
        }),
{
    let ghost b0 = bundle@;
    if !mmcs_sibling_strip_enabled(text) {
        return 0;
    }
    let ghost c = chal_cover(*groups, true);
    let before: usize = chal_mmcs_sibling_wire_bytes(bundle);
    let merged: bool = groups.chal_first_layer.len() == 0 && groups.chal_commit.len() > 0;
    let all: bool = merged || groups.pcs_combined;
    let first: bool = groups.chal_first_layer.len() > 0 || all;
    let n: usize = bundle.len();
    let mut q: usize = 0;
    while q < n
        invariant
            q <= n,
            n == b0.len(),
            c == chal_cover(*groups, true),
            first == c.first,
            all == c.all,
            bundle@.len() == n,
            forall|j: int| 0 <= j < q ==> chal_siblings_dropped(b0[j], #[trigger] bundle@[j], c),
            forall|j: int| q <= j < n ==> bundle@[j] == b0[j],
        decreases n - q,
    {
        drop_chal_siblings(&mut bundle[q], groups, first, all);
        q += 1;
    }
    proof {
        lemma_chal_dropped_bytes(b0, bundle@, c);
    }
    before - chal_mmcs_sibling_wire_bytes(bundle)
}

} // verus!
