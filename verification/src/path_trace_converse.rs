//! Traces of bits that satisfy the path systems prove their paths.
use vstd::prelude::*;

use crate::constraint::{all_zero, lemma_all_zero_concat, WindowVals};
use crate::field::{fmul, fsub};
use crate::fri_mmcs_path_m4a::{
    batched_path_publics, m4a_offsets_spec, segment_constraints, segment_vals, MmcsBatchedPathAir,
};
use crate::keccak256_air::{lemma_sponge_rows, sponge_rows};
use crate::keccak_f_native::keccak256_spec;
use crate::matrix::byte_vals;
use crate::merkle::{is_path_layers, path_root};
use crate::merkle_keccak::keccak_pair;
use crate::path_converse::{
    lemma_claimed_path, lemma_segment_exact, pair_at, pair_ok, path_claimed, seg_len, segment_ok,
    segments_ok,
};
use crate::path_gadgets::{index_constraints, path_constraints, PathOffsets};
use crate::path_laws::{segment_window, SegmentRow};
use crate::path_trace_laws::{lemma_path_selectors, lemma_same_segment};
use crate::segments::{index_bit_vals, padded_digest_vals};
use crate::sponge_gadgets::zero_constraints;

verus! {

/// The segment that row `k` of a path stands in.
pub open spec fn seg_of(len: nat, k: int) -> int {
    if k < sponge_rows(len) {
        0
    } else {
        1 + (k - sponge_rows(len)) / 32
    }
}

/// The place of row `k` of a path within its segment.
pub open spec fn place_of(len: nat, k: int) -> int {
    if k < sponge_rows(len) {
        k
    } else {
        (k - sponge_rows(len)) % 32
    }
}

/// The number of rows of a path.
pub open spec fn path_height(len: nat, depth: nat) -> int {
    sponge_rows(len) + 32 * depth
}

/// The flags of the rows from `b` on are laid out for a path: segment numbers, a start flag on
/// each first row, and as many live rows as the segment's message has rounds.
pub open spec fn flags_laid(rows: Seq<SegmentRow>, b: int, len: nat, depth: nat) -> bool {
    forall|k: int|
        b <= k < b + path_height(len, depth) ==> {
            let seg = seg_of(len, k - b);
            let place = place_of(len, k - b);
            &&& (#[trigger] rows[k]).shape()
            &&& rows[k].seg == seg
            &&& rows[k].start == (place == 0)
            &&& rows[k].live == (place < 24 * (seg_len(len, seg) as int / 136 + 1))
        }
}

/// The rows of segment `seg` of the path that starts at row `b`.
pub open spec fn segment_at(rows: Seq<SegmentRow>, b: int, len: nat, seg: int) -> Seq<SegmentRow> {
    let from = b + (if seg == 0 {
        0
    } else {
        sponge_rows(len) + 32 * (seg - 1)
    });
    rows.subrange(from, from + sponge_rows(seg_len(len, seg)))
}

/// Laid-out rows whose pairs within a segment are satisfied form satisfied segments.
pub proof fn lemma_segments_at(
    rows: Seq<SegmentRow>,
    b: int,
    pv: Seq<int>,
    off: PathOffsets,
    len: nat,
    depth: nat,
)
    requires
        0 <= b,
        b + path_height(len, depth) <= rows.len(),
        flags_laid(rows, b, len, depth),
        forall|k: int|
            b <= k < b + path_height(len, depth) - 1 && !rows[k + 1].start ==> #[trigger] pair_at(
                rows,
                k,
                pv,
                off,
                len as int,
                depth,
            ),
    ensures
        segments_ok(|seg: int| segment_at(rows, b, len, seg), pv, off, len, depth),
{
    let segs = |seg: int| segment_at(rows, b, len, seg);
    lemma_sponge_rows(len);
    lemma_sponge_rows(64);
    assert forall|seg: int| 0 <= seg <= depth implies segment_ok(
        #[trigger] segs(seg),
        seg,
        seg_len(len, seg),
        pv,
        off,
        len as int,
        depth,
    ) by {
        let q = segs(seg);
        let from = if seg == 0 {
            0
        } else {
            sponge_rows(len) + 32 * (seg - 1)
        };
        let h = sponge_rows(seg_len(len, seg));
        assert(from + h <= path_height(len, depth));
        assert(q.len() == h);
        assert forall|j: int| 0 <= j < h implies seg_of(len, from + j) == seg && place_of(
            len,
            #[trigger] (from + j),
        ) == j by {
            if seg > 0 {
                assert((32 * (seg - 1) + j) / 32 == seg - 1);
                assert((32 * (seg - 1) + j) % 32 == j);
            }
        }
        assert forall|j: int| 0 <= j < q.len() implies (#[trigger] q[j]).seg == seg && q[j].start
            == (j == 0) && q[j].live == (j < 24 * (seg_len(len, seg) as int / 136 + 1)) by {
            assert(q[j] == rows[b + (from + j)]);
            assert(place_of(len, from + j) == j);
        }
        assert forall|j: int| 0 <= j < q.len() - 1 implies #[trigger] pair_at(
            q,
            j,
            pv,
            off,
            len as int,
            depth,
        ) by {
            let k = b + from + j;
            assert(q[j] == rows[k]);
            assert(q[j + 1] == rows[k + 1]);
            assert(!q[j + 1].start);
            assert(pair_at(rows, k, pv, off, len as int, depth));
        }
    }
}

/// The row pair that starts at row `k`; the last row is followed by the first.
pub open spec fn path_window(rows: Seq<SegmentRow>, pv: Seq<int>, k: int) -> WindowVals {
    segment_window(
        rows[k],
        rows[if k + 1 == rows.len() {
            0
        } else {
            k + 1
        }],
        Seq::empty(),
        Seq::empty(),
        pv,
        k == 0,
        k + 1 != rows.len(),
    )
}

/// The rows satisfy the single-path system, and their flags are laid out for a path.
pub open spec fn path_accepts(air: MmcsBatchedPathAir, rows: Seq<SegmentRow>, pv: Seq<int>) -> bool {
    let len = air.leaf_msg_len as nat;
    &&& rows.len() == path_height(len, air.depth as nat)
    &&& flags_laid(rows, 0, len, air.depth as nat)
    &&& forall|k: int|
        0 <= k < rows.len() ==> all_zero(air.constraints(#[trigger] path_window(rows, pv, k)))
}

/// A satisfied row pair within a segment.
proof fn lemma_path_pair(air: MmcsBatchedPathAir, c: SegmentRow, n: SegmentRow, pv: Seq<int>, first: bool)
    requires
        c.shape(),
        n.shape(),
        air.depth <= 20,
        air.leaf_msg_len < 272,
        !n.start,
        c.seg == n.seg,
        all_zero(
            air.constraints(segment_window(c, n, Seq::empty(), Seq::empty(), pv, first, true)),
        ),
    ensures
        pair_ok(
            c,
            n,
            pv,
            m4a_offsets_spec(air.leaf_msg_len),
            air.leaf_msg_len as int,
            air.depth as nat,
        ),
{
    let tail = Seq::<int>::empty();
    let off = m4a_offsets_spec(air.leaf_msg_len);
    let w = segment_window(c, n, tail, tail, pv, first, true);
    let v = segment_vals(w);
    let s = air.selectors(w);
    let c1 = segment_constraints(w, MmcsBatchedPathAir::same_segment(w));
    let c2 = path_constraints(v.cells, pv, off, air.leaf_msg_len as int, air.depth as nat, s);
    let c3 = seq![fsub(pv[air.leaf_msg_len + 65], air.depth as int)];
    let c4 = index_constraints(pv, off, air.depth as int);
    let c5 = seq![fmul(w.first, fsub(w.curr[1606], 1))];
    let c6 = zero_constraints(w.curr.subrange(1607, 1612), w.first);
    lemma_all_zero_concat(c1, c2);
    lemma_all_zero_concat(c1 + c2, c3);
    lemma_all_zero_concat(c1 + c2 + c3, c4);
    lemma_all_zero_concat(c1 + c2 + c3 + c4, c5);
    lemma_all_zero_concat(c1 + c2 + c3 + c4 + c5, c6);
    lemma_same_segment(c, n, pv, first, true);
    lemma_segment_exact(c, n, tail, tail, pv, first, true, true);
    lemma_path_selectors(air, c, n, pv, first, true);
}

/// The public values claim their path.
proof fn lemma_publics_claim(
    msg: Seq<u8>,
    leaf: Seq<u8>,
    root: Seq<u8>,
    index: u32,
    siblings: Seq<[u8; 32]>,
    layers: Seq<[u8; 32]>,
    len: usize,
)
    requires
        len == msg.len(),
        len < 272,
        leaf.len() == 32,
        root.len() == 32,
        0 < siblings.len() <= 20,
        layers.len() == siblings.len(),
    ensures
        path_claimed(
            batched_path_publics(msg, leaf, root, index, siblings, layers),
            m4a_offsets_spec(len),
            msg,
            leaf,
            root,
            index as int,
            siblings,
            layers,
        ),
{
    let pv = batched_path_publics(msg, leaf, root, index, siblings, layers);
    let o = len as int;
    assert(pv.len() == o + 1366);
    assert(pv.subrange(0, o) =~= byte_vals(msg));
    assert(pv.subrange(o, o + 32) =~= byte_vals(leaf));
    assert(pv.subrange(o + 32, o + 64) =~= byte_vals(root));
    assert(pv.subrange(o + 66, o + 86) =~= index_bit_vals(index as int, siblings.len() as int));
    assert(pv.subrange(o + 86, o + 726) =~= padded_digest_vals(siblings));
    assert(pv.subrange(o + 726, o + 1366) =~= padded_digest_vals(layers));
}

/// A trace of bits that satisfies the single-path system, its flags laid out for a path, proves
/// the path its publics claim: the leaf digest is the message's, each level digest follows from
/// the one before, and the last is the root.
pub proof fn lemma_path_proves_root(
    air: MmcsBatchedPathAir,
    rows: Seq<SegmentRow>,
    msg: Seq<u8>,
    leaf: Seq<u8>,
    root: Seq<u8>,
    index: u32,
    siblings: Seq<[u8; 32]>,
    layers: Seq<[u8; 32]>,
)
    requires
        air.leaf_msg_len == msg.len(),
        air.depth == siblings.len(),
        msg.len() != 136,
        msg.len() < 272,
        leaf.len() == 32,
        root.len() == 32,
        0 < siblings.len() <= 20,
        layers.len() == siblings.len(),
        path_accepts(air, rows, batched_path_publics(msg, leaf, root, index, siblings, layers)),
    ensures
        leaf == keccak256_spec(msg),
        is_path_layers(layers, keccak_pair(), leaf, siblings, index as int),
        root == path_root(keccak_pair(), leaf, siblings, index as int),
{
    let pv = batched_path_publics(msg, leaf, root, index, siblings, layers);
    let off = m4a_offsets_spec(air.leaf_msg_len);
    let len = msg.len();
    let depth = siblings.len();
    lemma_publics_claim(msg, leaf, root, index, siblings, layers, air.leaf_msg_len);
    assert forall|k: int|
        0 <= k < path_height(len, depth) - 1 && !rows[k + 1].start implies #[trigger] pair_at(
        rows,
        k,
        pv,
        off,
        len as int,
        depth,
    ) by {
        assert(all_zero(air.constraints(path_window(rows, pv, k))));
        lemma_seg_goes_on(rows, 0, len, depth, k);
        lemma_path_pair(air, rows[k], rows[k + 1], pv, k == 0);
    }
    lemma_segments_at(rows, 0, pv, off, len, depth);
    lemma_claimed_path(
        |seg: int| segment_at(rows, 0, len, seg),
        pv,
        off,
        msg,
        leaf,
        root,
        index as int,
        siblings,
        layers,
    );
}

/// A row that starts no segment stands in the segment of the row before.
pub proof fn lemma_seg_goes_on(rows: Seq<SegmentRow>, b: int, len: nat, depth: nat, k: int)
    requires
        flags_laid(rows, b, len, depth),
        b <= k < b + path_height(len, depth) - 1,
        !rows[k + 1].start,
    ensures
        rows[k].shape(),
        rows[k + 1].shape(),
        rows[k].seg == rows[k + 1].seg,
{
    lemma_sponge_rows(len);
    let i = k - b;
    assert(rows[k + 1].start == (place_of(len, i + 1) == 0));
    assert(rows[k + 1].seg == seg_of(len, i + 1));
    assert(rows[k].seg == seg_of(len, i));
    let x = i - sponge_rows(len);
    if x >= 0 {
        assert((x + 1) % 32 != 0);
        assert((x + 1) / 32 == x / 32);
    }
}

} // verus!
