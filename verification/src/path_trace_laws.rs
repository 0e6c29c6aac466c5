//! The traces of Merkle paths satisfy the path systems.
use vstd::prelude::*;

use crate::bits::exp2;
use crate::constraint::{all_zero, lemma_all_zero_concat};
use crate::field::{fbool, fmul, fsub, vals};
use crate::fri_mmcs_path_m4a::{
    is_path_trace, m4a_offsets_spec, path_claim_publics, path_leaf_ok, segment_constraints,
    segment_vals, MmcsBatchedPathAir,
};
use crate::keccak256_air::{lemma_sponge_rows, sponge_rows};
use crate::keccak_f_native::row_bytes;
use crate::keccak_merkle_air::{is_fold_trace, merkle_fold_publics, MerkleFoldAir};
use crate::matrix::{byte_vals, RowMajorMatrix};
use crate::merkle::path_root;
use crate::merkle_keccak::{keccak_leaf, keccak_pair};
use crate::number_laws::{
    lemma_number_cells, lemma_number_value, lemma_same_bits, lemma_twenty,
};
use crate::path_gadgets::{index_constraints, path_constraints};
use crate::path_laws::{
    lemma_cells, lemma_flags, lemma_first_zero, SegmentRow,
    lemma_digest_len, lemma_index_zero, lemma_layer_msg, lemma_path_zero, lemma_row_of,
    lemma_segment_parts, lemma_segment_zero, path_listed, row_cells, row_of, row_selectors,
    rows_of_path, seg_msg, segment_window,
};
use crate::segments::{
    index_bit_vals, layer_msgs, number_bits, padded_digest_vals, padded_layer_vals, path_rows,
    rows_are, segment_row, segment_rows,
};
use crate::sponge_gadgets::{eq_bits, zero_constraints};

verus! {

/// The message of a segment, given the levels' messages.
pub open spec fn listed_msg(msg: Seq<u8>, msgs: Seq<Seq<u8>>, seg: int) -> Seq<u8> {
    if seg == 0 {
        msg
    } else {
        msgs[seg - 1]
    }
}

/// Where a row of a path stands: its segment and its place there.
pub open spec fn row_at(
    rows: Seq<Seq<int>>,
    msg: Seq<u8>,
    msgs: Seq<Seq<u8>>,
    n: nat,
    tail: Seq<int>,
    k: int,
    seg: int,
    j: int,
) -> bool {
    let m = listed_msg(msg, msgs, seg);
    &&& 0 <= seg <= n
    &&& 0 <= j < sponge_rows(m.len())
    &&& rows[k] == segment_row(m, number_bits(seg, 5) + tail, j)
    &&& k == 0 ==> seg == 0 && j == 0
    &&& k + 1 < rows.len() && j + 1 < sponge_rows(m.len()) ==> rows[k + 1] == segment_row(
        m,
        number_bits(seg, 5) + tail,
        j + 1,
    )
    &&& k + 1 < rows.len() && j + 1 >= sponge_rows(m.len()) ==> seg < n && rows[k + 1]
        == segment_row(listed_msg(msg, msgs, seg + 1), number_bits(seg + 1, 5) + tail, 0)
    &&& k + 1 == rows.len() ==> seg == n && j + 1 == sponge_rows(m.len())
}

/// Every row of a path stands in one of its segments.
pub proof fn lemma_row_at(
    msg: Seq<u8>,
    msgs: Seq<Seq<u8>>,
    n: nat,
    tail: Seq<int>,
    k: int,
) -> (r: (int, int))
    requires
        0 <= k < path_rows(msg, msgs, n, tail).len(),
    ensures
        row_at(path_rows(msg, msgs, n, tail), msg, msgs, n, tail, k, r.0, r.1),
    decreases n,
{
    let rows = path_rows(msg, msgs, n, tail);
    if n == 0 {
        lemma_sponge_rows(msg.len());
        (0, k)
    } else {
        let before = path_rows(msg, msgs, (n - 1) as nat, tail);
        let meta = number_bits(n as int, 5) + tail;
        let last = segment_rows(msgs[n - 1], meta);
        lemma_sponge_rows(msgs[n - 1].len());
        assert(rows == before + last);
        if k < before.len() {
            let r = lemma_row_at(msg, msgs, (n - 1) as nat, tail, k);
            assert(rows[k] == before[k]);
            if k + 1 < before.len() {
                assert(rows[k + 1] == before[k + 1]);
            } else {
                assert(rows[k + 1] == last[0]);
            }
            r
        } else {
            lemma_path_rows_start(msg, msgs, (n - 1) as nat, tail);
            let j = k - before.len();
            assert(rows[k] == last[j]);
            if k + 1 < rows.len() {
                assert(rows[k + 1] == last[j + 1]);
            }
            (n as int, j)
        }
    }
}

/// A path has rows, and the first starts the leaf segment.
pub proof fn lemma_path_rows_start(msg: Seq<u8>, msgs: Seq<Seq<u8>>, n: nat, tail: Seq<int>)
    ensures
        path_rows(msg, msgs, n, tail).len() > 0,
        path_rows(msg, msgs, n, tail)[0] == segment_row(msg, number_bits(0, 5) + tail, 0),
    decreases n,
{
    if n == 0 {
        lemma_sponge_rows(msg.len());
    } else {
        lemma_path_rows_start(msg, msgs, (n - 1) as nat, tail);
    }
}

/// A trace made of listed rows has as many rows as are listed.
pub proof fn lemma_rows_count(m: RowMajorMatrix, rows: Seq<Seq<int>>)
    requires
        rows_are(m, rows),
        m.width > 0,
    ensures
        m.rows() == rows.len(),
{
    let n = rows.len() as int;
    let w = m.width as int;
    assert((n * w) / w == n) by (nonlinear_arith)
        requires
            w > 0,
    ;
}

/// The public values of a path list it.
proof fn lemma_claim_listed(row: Seq<int>, siblings: Seq<[u8; 32]>, index: usize, len: usize)
    requires
        len == 4 * row.len(),
        len < 272,
        0 < siblings.len() <= 20,
        index < exp2(siblings.len()),
    ensures
        ({
            let root = path_root(keccak_pair(), keccak_leaf(row), siblings, index as int);
            let pv = path_claim_publics(row, siblings, index, root);
            &&& pv.len() == len + 1366
            &&& pv[len + 65] == siblings.len()
            &&& path_listed(pv, m4a_offsets_spec(len), row_bytes(row), siblings, index as int)
        }),
{
    let msg = row_bytes(row);
    let leaf = keccak_leaf(row);
    let root = path_root(keccak_pair(), leaf, siblings, index as int);
    lemma_digest_len(msg);
    lemma_layer_msg(msg, siblings, index as int, siblings.len() - 1);
    lemma_twenty(siblings.len());
    assert((index as u32) as int == index as int);
    let pv = path_claim_publics(row, siblings, index, root);
    let o = len as int;
    assert(pv.len() == o + 1366);
    assert(pv.subrange(0, o) =~= byte_vals(msg));
    assert(pv.subrange(o, o + 32) =~= byte_vals(leaf));
    assert(pv.subrange(o + 32, o + 64) =~= byte_vals(root));
    assert(pv.subrange(o + 66, o + 86) =~= index_bit_vals(index as int, siblings.len() as int));
    assert(pv.subrange(o + 86, o + 726) =~= padded_digest_vals(siblings));
    assert(pv.subrange(o + 726, o + 1366) =~= padded_layer_vals(leaf, siblings, index as int));
}

/// The trace of a path whose index is within its depth satisfies the single-path system on every
/// row, with the path's publics and its root.
pub proof fn lemma_path_trace_satisfies(
    air: MmcsBatchedPathAir,
    m: RowMajorMatrix,
    row: Seq<int>,
    siblings: Seq<[u8; 32]>,
    index: usize,
    i: int,
)
    requires
        air.leaf_msg_len == 4 * row.len(),
        air.depth == siblings.len(),
        path_leaf_ok(row.len() as int),
        0 < siblings.len() <= 20,
        index < exp2(siblings.len()),
        is_path_trace(m, row, siblings, index as int),
        0 <= i < m.rows(),
    ensures
        all_zero(
            air.constraints(
                m.window_vals(
                    i,
                    path_claim_publics(
                        row,
                        siblings,
                        index,
                        path_root(keccak_pair(), keccak_leaf(row), siblings, index as int),
                    ),
                ),
            ),
        ),
{
    let msg = row_bytes(row);
    let leaf = keccak_leaf(row);
    let x = index as int;
    let depth = siblings.len();
    let msgs = layer_msgs(leaf, siblings, x);
    let tail = Seq::<int>::empty();
    let rows = path_rows(msg, msgs, depth, tail);
    let root = path_root(keccak_pair(), leaf, siblings, x);
    let pv = path_claim_publics(row, siblings, index, root);
    lemma_rows_count(m, rows);
    lemma_claim_listed(row, siblings, index, air.leaf_msg_len);
    let (seg, j) = lemma_row_at(msg, msgs, depth, tail, i);
    lemma_path_rows_start(msg, msgs, depth, tail);
    let mc = seg_msg(msg, siblings, x, seg);
    assert(mc == listed_msg(msg, msgs, seg));
    if seg > 0 {
        lemma_layer_msg(msg, siblings, x, seg - 1);
    }
    let c = row_of(mc, seg, j);
    lemma_row_of(mc, seg, j, tail);
    let last = i + 1 == rows.len();
    let goes_on = !last && j + 1 < sponge_rows(mc.len());
    let seg_n = if goes_on {
        seg
    } else if last {
        0
    } else {
        seg + 1
    };
    let mn = seg_msg(msg, siblings, x, seg_n);
    if seg_n > 0 {
        lemma_layer_msg(msg, siblings, x, seg_n - 1);
    }
    let jn = if goes_on {
        j + 1
    } else {
        0
    };
    let n = row_of(mn, seg_n, jn);
    lemma_row_of(mn, seg_n, jn, tail);
    let w = segment_window(c, n, tail, tail, pv, i == 0, !last);
    assert(m.row(i) == rows[i]);
    assert(m.row(if last { 0 } else { i + 1 }) == rows[if last { 0 } else { i + 1 }]);
    assert(m.window_vals(i, pv) =~= w);
    lemma_path_window(air, row, siblings, index, c, n, j, i == 0, !last);
}

/// The segment goes on exactly where the next row starts none.
pub proof fn lemma_same_segment(
    c: SegmentRow,
    n: SegmentRow,
    pv: Seq<int>,
    first: bool,
    trans: bool,
)
    requires
        c.shape(),
        n.shape(),
        !n.start ==> c.seg == n.seg,
    ensures
        MmcsBatchedPathAir::same_segment(
            segment_window(c, n, Seq::empty(), Seq::empty(), pv, first, trans),
        ) == fbool(!n.start),
{
    let tail = Seq::<int>::empty();
    lemma_cells(c, tail);
    lemma_cells(n, tail);
    lemma_number_cells(c.seg, 5);
    lemma_flags(n.start, n.start);
    lemma_same_bits(!n.start, number_bits(c.seg, 5), number_bits(n.seg, 5), 5);
}

/// The selectors of the single-path system on a window of segment rows.
pub proof fn lemma_path_selectors(
    air: MmcsBatchedPathAir,
    c: SegmentRow,
    n: SegmentRow,
    pv: Seq<int>,
    first: bool,
    trans: bool,
)
    requires
        c.valid(),
        n.shape(),
        air.depth <= 20,
        !n.start ==> c.seg == n.seg,
    ensures
        ({
            let w = segment_window(c, n, Seq::empty(), Seq::empty(), pv, first, trans);
            &&& air.selectors(w) == row_selectors(c, n, trans, !n.start, true, air.depth as nat)
            &&& segment_vals(w).cells == row_cells(c, n)
        }),
{
    let tail = Seq::<int>::empty();
    let depth = air.depth as nat;
    let w = segment_window(c, n, tail, tail, pv, first, trans);
    let v = segment_vals(w);
    let same = !n.start;
    lemma_segment_parts(c, n, tail, tail, pv, first, trans);
    lemma_same_segment(c, n, pv, first, trans);
    let s = air.selectors(w);
    let t = row_selectors(c, n, trans, same, true, depth);
    let wrap = c.round == 23 && n.round == 0;
    assert(eq_bits(v.seg_c, 0) == fbool(c.seg == 0));
    lemma_flags(c.start, c.seg == 0);
    lemma_flags(!c.live, c.seg == 0);
    lemma_flags(trans, c.live && n.live);
    lemma_flags(trans && c.live && n.live, wrap);
    lemma_flags(trans && c.live && n.live && wrap, same);
    lemma_flags(trans && c.live && n.live && wrap && same, c.seg == 0);
    assert(s.leaf_start == t.leaf_start);
    assert(s.second_block == t.second_block);
    assert(s.leaf_idle == t.leaf_idle);
    assert forall|l: int| 0 <= l < depth implies #[trigger] s.layer_start[l] == t.layer_start[l] by {
        assert(eq_bits(v.seg_c, l + 1) == fbool(c.seg == l + 1));
        lemma_flags(c.start, c.seg == l + 1);
    }
    assert forall|l: int| 0 <= l < depth implies #[trigger] s.layer_idle[l] == t.layer_idle[l] by {
        assert(eq_bits(v.seg_c, l + 1) == fbool(c.seg == l + 1));
        lemma_flags(!c.live, c.seg == l + 1);
    }
    assert(s =~= t);
    assert(v.cells =~= row_cells(c, n));
}

/// The single-path system holds on a window of the path's rows.
proof fn lemma_path_window(
    air: MmcsBatchedPathAir,
    row: Seq<int>,
    siblings: Seq<[u8; 32]>,
    index: usize,
    c: SegmentRow,
    n: SegmentRow,
    j: int,
    first: bool,
    trans: bool,
)
    requires
        air.leaf_msg_len == 4 * row.len(),
        air.depth == siblings.len(),
        path_leaf_ok(row.len() as int),
        0 < siblings.len() <= 20,
        index < exp2(siblings.len()),
        c.valid(),
        n.valid(),
        rows_of_path(c, n, trans && !n.start, j, row_bytes(row), siblings, index as int),
        trans && !n.start ==> c.steps_to(n),
        !n.start ==> c.seg == n.seg,
        first ==> c.start && c.seg == 0,
    ensures
        ({
            let root = path_root(keccak_pair(), keccak_leaf(row), siblings, index as int);
            let pv = path_claim_publics(row, siblings, index, root);
            let tail = Seq::<int>::empty();
            all_zero(air.constraints(segment_window(c, n, tail, tail, pv, first, trans)))
        }),
{
    let msg = row_bytes(row);
    let x = index as int;
    let depth = siblings.len();
    let tail = Seq::<int>::empty();
    let root = path_root(keccak_pair(), keccak_leaf(row), siblings, x);
    let pv = path_claim_publics(row, siblings, index, root);
    let off = m4a_offsets_spec(air.leaf_msg_len);
    let w = segment_window(c, n, tail, tail, pv, first, trans);
    let v = segment_vals(w);
    let same = !n.start;
    lemma_claim_listed(row, siblings, index, air.leaf_msg_len);
    lemma_segment_parts(c, n, tail, tail, pv, first, trans);
    lemma_same_segment(c, n, pv, first, trans);
    lemma_path_selectors(air, c, n, pv, first, trans);
    let s = air.selectors(w);
    lemma_segment_zero(c, n, tail, tail, pv, first, trans, same);
    lemma_path_zero(pv, off, msg, siblings, x, c, n, j, trans, same, true);
    lemma_index_zero(pv, off, msg, siblings, x);
    let c1 = segment_constraints(w, fbool(same));
    let c2 = path_constraints(v.cells, pv, off, msg.len() as int, depth, s);
    let c3 = seq![fsub(pv[air.leaf_msg_len + 65], air.depth as int)];
    let c4 = index_constraints(pv, off, air.depth as int);
    let c5 = seq![fmul(w.first, fsub(w.curr[1606], 1))];
    let c6 = zero_constraints(w.curr.subrange(1607, 1612), w.first);
    assert(all_zero(c3));
    assert(all_zero(c5));
    lemma_first_zero(c.seg, 5, first);
    lemma_all_zero_concat(c1, c2);
    lemma_all_zero_concat(c1 + c2, c3);
    lemma_all_zero_concat(c1 + c2 + c3, c4);
    lemma_all_zero_concat(c1 + c2 + c3 + c4, c5);
    lemma_all_zero_concat(c1 + c2 + c3 + c4 + c5, c6);
}

/// The trace of an index below eight satisfies the index-bit system on both rows.
pub proof fn lemma_fold_trace_satisfies(
    m: RowMajorMatrix,
    leaf: Seq<u8>,
    root: Seq<u8>,
    index: u32,
    layers: Seq<[u8; 32]>,
    siblings: Seq<[u8; 32]>,
    i: int,
)
    requires
        is_fold_trace(m, index as int),
        index < 8,
        leaf.len() == 32,
        root.len() == 32,
        0 <= i < m.rows(),
    ensures
        all_zero(
            MerkleFoldAir.constraints(
                m.window_vals(i, merkle_fold_publics(leaf, root, index, layers, siblings)),
            ),
        ),
{
    let pv = merkle_fold_publics(leaf, root, index, layers, siblings);
    let w = m.window_vals(i, pv);
    let bits = number_bits(index as int, 3);
    let cells = vals(m.values@);
    assert(m.values@.len() == cells.len());
    assert(m.rows() == 2);
    assert forall|r: int| 0 <= r < 2 implies #[trigger] m.row(r) == bits by {
        assert forall|k: int| 0 <= k < 3 implies #[trigger] m.row(r)[k] == bits[k] by {
            assert(m.row(r)[k] == cells[r * 3 + k]);
            assert((r * 3 + k) % 3 == k);
        }
        assert(m.row(r) =~= bits);
    }
    assert(w.curr == bits && w.next == bits);
    assert(exp2(3) == 8) by {
        reveal_with_fuel(exp2, 4);
    }
    lemma_number_value(index as int, 3);
    lemma_number_cells(index as int, 3);
    assert(w.curr.take(3) =~= bits);
    assert(pv[64] == index as int && pv[65] == 3);
    let c = MerkleFoldAir.constraints(w);
    assert forall|k: int| 0 <= k < c.len() implies #[trigger] c[k] == 0 by {
        if k < 6 {
            assert(bits[k / 2] == 0 || bits[k / 2] == 1);
        }
    }
}

} // verus!
