//! The trace of a group of Merkle paths satisfies the group system.
use vstd::prelude::*;

use crate::bits::exp2;
use crate::checks::lemma_first_some_none;
use crate::constraint::{all_zero, lemma_all_zero_concat, WindowVals};
use crate::field::{fbool, fmul, fsub, vals};
use crate::fri_mmcs_group_m4b::{
    group_publics, group_report, group_rows, m4b_offsets_spec, stmt_publics, stmt_report,
    stmt_root, stmt_rows, MmcsGroupPathAir, MmcsPathStatement, M4B_GROUP_WIDTH,
};
use crate::fri_mmcs_path_m4a::{path_leaf_ok, segment_constraints, segment_vals};
use crate::keccak256_air::sponge_rows;
use crate::keccak_f_native::row_bytes;
use crate::matrix::{byte_vals, RowMajorMatrix};
use crate::merkle_keccak::keccak_leaf;
use crate::number_laws::{
    lemma_number_cells, lemma_number_eq, lemma_number_value, lemma_same_bits, lemma_twenty,
};
use crate::path_gadgets::{
    flat, index_constraints, lemma_flat_all_zero, lemma_flat_even, path_constraints, PathOffsets,
    PathSelectorVals, SpongeCellVals,
};
use crate::path_laws::{
    lemma_digest_len, lemma_first_zero, lemma_index_zero, lemma_layer_msg, lemma_path_zero,
    lemma_row_of, lemma_segment_parts, lemma_segment_zero, path_listed, row_cells, row_of,
    row_selectors, rows_of_path, seg_msg, segment_window, SegmentRow,
};
use crate::path_trace_laws::{lemma_path_rows_start, lemma_row_at, lemma_rows_count, listed_msg};
use crate::segments::{
    index_bit_vals, layer_msgs, number_bits, padded_digest_vals, padded_layer_vals, path_rows,
    rows_are, segment_row,
};
use crate::sponge_gadgets::{eq_bits, hold_constraints, zero_constraints};
use crate::sponge_laws::lemma_hold_zero;

verus! {

/// The message of a segment of a statement's path.
pub open spec fn stmt_msg(s: MmcsPathStatement, seg: int) -> Seq<u8> {
    seg_msg(row_bytes(vals(s.row@)), s.siblings@, s.index as int, seg)
}

/// Row `j` of segment `seg` of path `p`.
pub open spec fn group_row(stmts: Seq<MmcsPathStatement>, p: int, seg: int, j: int) -> Seq<int> {
    segment_row(stmt_msg(stmts[p], seg), number_bits(seg, 5) + number_bits(p, 7), j)
}

/// Where a row of a group stands: its path, its segment and its place there.
pub open spec fn in_group(
    rows: Seq<Seq<int>>,
    stmts: Seq<MmcsPathStatement>,
    n: nat,
    k: int,
    p: int,
    seg: int,
    j: int,
) -> bool {
    let height = sponge_rows(stmt_msg(stmts[p], seg).len());
    let depth = stmts[p].siblings@.len() as int;
    &&& 0 <= p < n
    &&& 0 <= seg <= depth
    &&& 0 <= j < height
    &&& rows[k] == group_row(stmts, p, seg, j)
    &&& k == 0 ==> p == 0 && seg == 0 && j == 0
    &&& k + 1 < rows.len() && j + 1 < height ==> rows[k + 1] == group_row(stmts, p, seg, j + 1)
    &&& k + 1 < rows.len() && j + 1 >= height && seg < depth ==> rows[k + 1] == group_row(
        stmts,
        p,
        seg + 1,
        0,
    )
    &&& k + 1 < rows.len() && j + 1 >= height && seg >= depth ==> p + 1 < n && rows[k + 1]
        == group_row(stmts, p + 1, 0, 0)
    &&& k + 1 == rows.len() ==> p + 1 == n && seg == depth && j + 1 == height
}

/// A group of paths has rows, and the first starts its first path.
proof fn lemma_group_rows_start(stmts: Seq<MmcsPathStatement>, n: nat)
    requires
        n > 0,
    ensures
        group_rows(stmts, n).len() > 0,
        group_rows(stmts, n)[0] == group_row(stmts, 0, 0, 0),
    decreases n,
{
    let s = stmts[n - 1];
    let row = vals(s.row@);
    lemma_path_rows_start(
        row_bytes(row),
        layer_msgs(keccak_leaf(row), s.siblings@, s.index as int),
        s.siblings@.len(),
        number_bits(n - 1, 7),
    );
    if n > 1 {
        lemma_group_rows_start(stmts, (n - 1) as nat);
    } else {
        assert(group_rows(stmts, 0).len() == 0);
        assert(group_rows(stmts, n)[0] == stmt_rows(s, 0)[0]);
    }
}

/// A path's messages are those of its segments.
proof fn lemma_stmt_msg(s: MmcsPathStatement, seg: int)
    requires
        0 <= seg <= s.siblings@.len(),
    ensures
        ({
            let row = vals(s.row@);
            let msgs = layer_msgs(keccak_leaf(row), s.siblings@, s.index as int);
            listed_msg(row_bytes(row), msgs, seg) == stmt_msg(s, seg)
        }),
{
}

/// Every row of a group stands in a segment of one of its paths.
proof fn lemma_in_group(stmts: Seq<MmcsPathStatement>, n: nat, k: int) -> (r: (int, int, int))
    requires
        0 <= k < group_rows(stmts, n).len(),
    ensures
        in_group(group_rows(stmts, n), stmts, n, k, r.0, r.1, r.2),
    decreases n,
{
    let rows = group_rows(stmts, n);
    let before = group_rows(stmts, (n - 1) as nat);
    let s = stmts[n - 1];
    let row = vals(s.row@);
    let msg = row_bytes(row);
    let msgs = layer_msgs(keccak_leaf(row), s.siblings@, s.index as int);
    let depth = s.siblings@.len();
    let tail = number_bits(n - 1, 7);
    let last = path_rows(msg, msgs, depth, tail);
    assert(rows == before + last);
    lemma_path_rows_start(msg, msgs, depth, tail);
    if k < before.len() {
        let r = lemma_in_group(stmts, (n - 1) as nat, k);
        assert(rows[k] == before[k]);
        if k + 1 < before.len() {
            assert(rows[k + 1] == before[k + 1]);
        } else {
            assert(rows[k + 1] == last[0]);
            assert(last[0] == group_row(stmts, n - 1, 0, 0));
        }
        r
    } else {
        let i = k - before.len();
        let (seg, j) = lemma_row_at(msg, msgs, depth, tail, i);
        lemma_stmt_msg(s, seg);
        assert(rows[k] == last[i]);
        if k + 1 < rows.len() {
            assert(rows[k + 1] == last[i + 1]);
            if seg < depth {
                lemma_stmt_msg(s, seg + 1);
            }
        }
        if k == 0 && n > 1 {
            lemma_group_rows_start(stmts, (n - 1) as nat);
        }
        (n - 1, seg, j)
    }
}

/// The statements form a group that the system covers.
pub open spec fn group_covered(stmts: Seq<MmcsPathStatement>) -> bool {
    &&& group_report(stmts) is None
    &&& forall|p: int|
        0 <= p < stmts.len() ==> (#[trigger] stmts[p]).index < exp2(stmts[p].siblings@.len())
}

/// What holds of each statement of a covered group.
proof fn lemma_covered(stmts: Seq<MmcsPathStatement>, p: int)
    requires
        group_covered(stmts),
        0 <= p < stmts.len(),
    ensures
        1 <= stmts.len() <= 128,
        stmts[p].siblings@.len() == stmts[0].siblings@.len(),
        0 < stmts[p].siblings@.len() <= 20,
        stmts[p].row@.len() == stmts[0].row@.len(),
        12 <= 4 * stmts[p].row@.len() < 272,
        stmt_root(stmts[p]) == stmts[p].root@,
        stmts[p].index < exp2(stmts[p].siblings@.len()),
{
    let f = |p: int| stmt_report(stmts, p);
    lemma_first_some_none(stmts.len(), f, p);
    assert(f(p) == stmt_report(stmts, p));
    assert(path_leaf_ok(stmts[p].row@.len() as int));
}

/// The statements have one shape.
pub open spec fn one_shape(stmts: Seq<MmcsPathStatement>) -> bool {
    &&& 1 <= stmts.len() <= 128
    &&& path_leaf_ok(stmts[0].row@.len() as int)
    &&& 0 < stmts[0].siblings@.len() <= 20
    &&& forall|p: int|
        0 <= p < stmts.len() ==> (#[trigger] stmts[p]).row@.len() == stmts[0].row@.len()
            && stmts[p].siblings@.len() == stmts[0].siblings@.len()
}

/// The public values of each path stand in their place among those of the group.
proof fn lemma_publics_there(stmts: Seq<MmcsPathStatement>, p: int)
    requires
        one_shape(stmts),
        0 <= p < stmts.len(),
    ensures
        ({
            let len = 4 * stmts[0].row@.len();
            let k = len + 1365;
            let pv = group_publics(stmts, stmts[0].siblings@.len() as int);
            &&& stmt_publics(stmts[p]).len() == k
            &&& pv.len() == 2 + stmts.len() * k
            &&& 2 + p * k + k <= pv.len()
            &&& 0 <= p * k <= 128 * 1637
            &&& pv[0] == stmts.len()
            &&& pv[1] == stmts[0].siblings@.len()
            &&& pv.subrange(2 + p * k, 2 + p * k + k) == stmt_publics(stmts[p])
        }),
{
    let o = 4 * stmts[0].row@.len() as int;
    let k = (o + 1365) as nat;
    let pv = group_publics(stmts, stmts[0].siblings@.len() as int);
    let f = |q: int| stmt_publics(stmts[q]);
    let all = flat(stmts.len(), f);
    assert forall|q: int| 0 <= q < stmts.len() implies (#[trigger] f(q)).len() == k by {
        assert(stmts[q].row@.len() == stmts[0].row@.len());
        lemma_digest_len(row_bytes(vals(stmts[q].row@)));
    }
    lemma_flat_even(stmts.len(), f, k);
    assert(p * k + k <= stmts.len() * k) by (nonlinear_arith)
        requires
            p + 1 <= stmts.len(),
    ;
    assert(0 <= p * k <= 128 * 1637) by (nonlinear_arith)
        requires
            0 <= p <= 128,
            0 <= k <= 1637,
    ;
    let b = 2 + p * k;
    let mine = stmt_publics(stmts[p]);
    let there = pv.subrange(b, b + k);
    assert(f(p).len() == k);
    assert forall|j: int| 0 <= j < k implies #[trigger] there[j] == mine[j] by {
        assert(there[j] == all[p * k + j]);
        assert(all[p * k + j] == f(p)[j]);
    }
    assert(there =~= mine);
}

/// The public values of a group list each of its paths.
proof fn lemma_group_listed(stmts: Seq<MmcsPathStatement>, p: int)
    requires
        group_covered(stmts),
        0 <= p < stmts.len(),
    ensures
        ({
            let s = stmts[p];
            let len = 4 * stmts[0].row@.len();
            let pv = group_publics(stmts, stmts[0].siblings@.len() as int);
            &&& pv.len() == 2 + stmts.len() * (len + 1365)
            &&& pv[0] == stmts.len()
            &&& pv[1] == stmts[0].siblings@.len()
            &&& path_listed(
                pv,
                m4b_offsets_spec(p, len as int),
                row_bytes(vals(s.row@)),
                s.siblings@,
                s.index as int,
            )
        }),
{
    let s = stmts[p];
    let row = vals(s.row@);
    let msg = row_bytes(row);
    let x = s.index as int;
    let depth = s.siblings@.len();
    let o = 4 * stmts[0].row@.len() as int;
    let k = o + 1365;
    let pv = group_publics(stmts, stmts[0].siblings@.len() as int);
    lemma_covered(stmts, p);
    assert forall|q: int| 0 <= q < stmts.len() implies (#[trigger] stmts[q]).row@.len()
        == stmts[0].row@.len() && stmts[q].siblings@.len() == stmts[0].siblings@.len() by {
        lemma_covered(stmts, q);
    }
    assert(path_leaf_ok(stmts[0].row@.len() as int));
    lemma_publics_there(stmts, p);
    let b = 2 + p * k;
    let mine = stmt_publics(s);
    let there = pv.subrange(b, b + k);
    lemma_digest_len(msg);
    lemma_layer_msg(msg, s.siblings@, x, depth - 1);
    lemma_mine(s);
    assert(pv.subrange(b, b + o) =~= mine.subrange(0, o));
    assert(pv.subrange(b + o, b + o + 32) =~= mine.subrange(o, o + 32));
    assert(pv.subrange(b + o + 32, b + o + 64) =~= mine.subrange(o + 32, o + 64));
    assert(pv[b + o + 64] == there[o + 64]);
    assert(pv.subrange(b + o + 65, b + o + 85) =~= mine.subrange(o + 65, o + 85));
    assert(pv.subrange(b + o + 85, b + o + 725) =~= mine.subrange(o + 85, o + 725));
    assert(pv.subrange(b + o + 725, b + o + 1365) =~= mine.subrange(o + 725, o + 1365));
}

/// The parts of a path's public values.
proof fn lemma_mine(s: MmcsPathStatement)
    requires
        0 < s.siblings@.len() <= 20,
        s.index < exp2(s.siblings@.len()),
    ensures
        ({
            let row = vals(s.row@);
            let leaf = keccak_leaf(row);
            let o = 4 * row.len() as int;
            let x = s.index as int;
            let mine = stmt_publics(s);
            &&& mine.len() == o + 1365
            &&& mine.subrange(0, o) == byte_vals(row_bytes(row))
            &&& mine.subrange(o, o + 32) == byte_vals(leaf)
            &&& mine.subrange(o + 32, o + 64) == byte_vals(s.root@)
            &&& mine[o + 64] == x
            &&& mine.subrange(o + 65, o + 85) == index_bit_vals(x, s.siblings@.len() as int)
            &&& mine.subrange(o + 85, o + 725) == padded_digest_vals(s.siblings@)
            &&& mine.subrange(o + 725, o + 1365) == padded_layer_vals(leaf, s.siblings@, x)
        }),
{
    let row = vals(s.row@);
    let leaf = keccak_leaf(row);
    let o = 4 * row.len() as int;
    let x = s.index as int;
    let mine = stmt_publics(s);
    lemma_digest_len(row_bytes(row));
    lemma_twenty(s.siblings@.len());
    assert((s.index as u32) as int == x);
    assert(mine.subrange(0, o) =~= byte_vals(row_bytes(row)));
    assert(mine.subrange(o, o + 32) =~= byte_vals(leaf));
    assert(mine.subrange(o + 32, o + 64) =~= byte_vals(s.root@));
    assert(mine.subrange(o + 65, o + 85) =~= index_bit_vals(x, s.siblings@.len() as int));
    assert(mine.subrange(o + 85, o + 725) =~= padded_digest_vals(s.siblings@));
    assert(mine.subrange(o + 725, o + 1365) =~= padded_layer_vals(leaf, s.siblings@, x));
}

/// The group system holds on a window of the rows of path `p`.
proof fn lemma_group_window(
    air: MmcsGroupPathAir,
    stmts: Seq<MmcsPathStatement>,
    p: int,
    pn: int,
    c: SegmentRow,
    n: SegmentRow,
    j: int,
    first: bool,
    trans: bool,
)
    requires
        group_covered(stmts),
        air.leaf_msg_len == 4 * stmts[0].row@.len(),
        air.depth == stmts[0].siblings@.len(),
        air.path_count == stmts.len(),
        0 <= p < stmts.len(),
        0 <= pn < stmts.len(),
        c.valid(),
        n.valid(),
        rows_of_path(
            c,
            n,
            trans && !n.start,
            j,
            row_bytes(vals(stmts[p].row@)),
            stmts[p].siblings@,
            stmts[p].index as int,
        ),
        trans && !n.start ==> c.steps_to(n),
        !n.start ==> c.seg == n.seg && p == pn,
        trans && n.start ==> pn == (if n.seg == 0 {
            p + 1
        } else {
            p
        }),
        first ==> c.start && c.seg == 0 && p == 0,
    ensures
        ({
            let pv = group_publics(stmts, stmts[0].siblings@.len() as int);
            all_zero(
                air.constraints(
                    segment_window(c, n, number_bits(p, 7), number_bits(pn, 7), pv, first, trans),
                ),
            )
        }),
{
    let depth = stmts[0].siblings@.len();
    let pv = group_publics(stmts, depth as int);
    let tc = number_bits(p, 7);
    let tn = number_bits(pn, 7);
    let w = segment_window(c, n, tc, tn, pv, first, trans);
    let same = !n.start;
    lemma_covered(stmts, p);
    lemma_group_listed(stmts, p);
    lemma_segment_parts(c, n, tc, tn, pv, first, trans);
    lemma_number_cells(p, 7);
    lemma_group_parts(p, pn, c, n, pv, first, trans);
    lemma_segment_zero(c, n, tc, tn, pv, first, trans, same);
    lemma_hold_zero(tc, tn, trans && same);
    assert(fmul(w.trans, fbool(same)) == fbool(trans && same));
    lemma_counter(w, p, pn, n, trans);
    let f = |q: int| air.path_block(w, q);
    assert forall|q: int| 0 <= q < stmts.len() implies all_zero(#[trigger] f(q)) by {
        lemma_path_block(air, stmts, p, q, pn, c, n, j, first, trans);
    }
    lemma_flat_all_zero(stmts.len(), f);
    lemma_first_zero(c.seg, 5, first);
    lemma_first_zero(p, 7, first);
    let c1 = segment_constraints(w, fbool(same));
    let c2 = hold_constraints(tc, tn, fbool(trans && same));
    let c3 = MmcsGroupPathAir::counter_constraints(w);
    let c4 = seq![fsub(pv[0], air.path_count as int), fsub(pv[1], air.depth as int)];
    let c5 = flat(stmts.len(), f);
    let c6 = seq![fmul(w.first, fsub(w.curr[1606], 1))];
    let c7 = zero_constraints(w.curr.subrange(1607, 1612), w.first);
    let c8 = zero_constraints(w.curr.subrange(1612, 1619), w.first);
    assert(all_zero(c4));
    assert(all_zero(c6));
    lemma_eight(c1, c2, c3, c4, c5, c6, c7, c8);
    assert(air.constraints(w) == c1 + c2 + c3 + c4 + c5 + c6 + c7 + c8);
}

proof fn lemma_off(x: int)
    ensures
        fmul(0, x) == 0,
        fmul(1, 0) == 0,
{
}

/// A list of eight families holds where each does.
proof fn lemma_eight(
    c1: Seq<int>,
    c2: Seq<int>,
    c3: Seq<int>,
    c4: Seq<int>,
    c5: Seq<int>,
    c6: Seq<int>,
    c7: Seq<int>,
    c8: Seq<int>,
)
    requires
        all_zero(c1) && all_zero(c2) && all_zero(c3) && all_zero(c4),
        all_zero(c5) && all_zero(c6) && all_zero(c7) && all_zero(c8),
    ensures
        all_zero(c1 + c2 + c3 + c4 + c5 + c6 + c7 + c8),
{
    lemma_all_zero_concat(c1, c2);
    lemma_all_zero_concat(c1 + c2, c3);
    lemma_all_zero_concat(c1 + c2 + c3, c4);
    lemma_all_zero_concat(c1 + c2 + c3 + c4, c5);
    lemma_all_zero_concat(c1 + c2 + c3 + c4 + c5, c6);
    lemma_all_zero_concat(c1 + c2 + c3 + c4 + c5 + c6, c7);
    lemma_all_zero_concat(c1 + c2 + c3 + c4 + c5 + c6 + c7, c8);
}

/// What the group system reads from a window of segment rows.
proof fn lemma_group_parts(
    p: int,
    pn: int,
    c: SegmentRow,
    n: SegmentRow,
    pv: Seq<int>,
    first: bool,
    trans: bool,
)
    requires
        c.valid(),
        n.valid(),
        !n.start ==> c.seg == n.seg && p == pn,
    ensures
        ({
            let w = segment_window(c, n, number_bits(p, 7), number_bits(pn, 7), pv, first, trans);
            &&& w.curr.subrange(1612, 1619) == number_bits(p, 7)
            &&& w.next.subrange(1612, 1619) == number_bits(pn, 7)
            &&& MmcsGroupPathAir::same_meta(w) == fbool(!n.start)
        }),
{
    let tc = number_bits(p, 7);
    let tn = number_bits(pn, 7);
    let w = segment_window(c, n, tc, tn, pv, first, trans);
    let v = segment_vals(w);
    let same = !n.start;
    lemma_segment_parts(c, n, tc, tn, pv, first, trans);
    lemma_number_cells(c.seg, 5);
    lemma_number_cells(p, 7);
    lemma_number_cells(pn, 7);
    lemma_same_bits(same, v.seg_c, v.seg_n, 5);
    lemma_same_bits(same, tc, tn, 7);
    assert(fsub(1, w.next[1606]) == fbool(same));
}

/// The path counter moves by one exactly where a leaf segment starts.
proof fn lemma_counter(w: WindowVals, p: int, pn: int, n: SegmentRow, trans: bool)
    requires
        0 <= p < 128,
        0 <= pn < 128,
        w.trans == fbool(trans),
        w.curr.subrange(1612, 1619) == number_bits(p, 7),
        w.next.subrange(1612, 1619) == number_bits(pn, 7),
        w.next[1606] == fbool(n.start),
        eq_bits(w.next.subrange(1607, 1612), 0) == fbool(n.seg == 0),
        trans && !(n.start && n.seg == 0) ==> p == pn,
        trans && n.start && n.seg == 0 ==> pn == p + 1,
    ensures
        all_zero(MmcsGroupPathAir::counter_constraints(w)),
{
    assert(exp2(7) == 128) by {
        reveal_with_fuel(exp2, 8);
    }
    lemma_number_value(p, 7);
    lemma_number_value(pn, 7);
    let c = MmcsGroupPathAir::counter_constraints(w);
    let new_path = fmul(w.next[1606], eq_bits(w.next.subrange(1607, 1612), 0));
    assert(new_path == fbool(n.start && n.seg == 0));
    assert(fmul(w.trans, fsub(1, new_path)) == fbool(trans && !(n.start && n.seg == 0)));
    assert(fmul(w.trans, new_path) == fbool(trans && n.start && n.seg == 0));
    let stay = trans && !(n.start && n.seg == 0);
    let move_on = trans && n.start && n.seg == 0;
    let d = fsub(pn, p);
    assert(c[0] == fmul(fbool(stay), d));
    assert(c[1] == fmul(fbool(move_on), fsub(d, 1)));
    lemma_off(d);
    lemma_off(fsub(d, 1));
    assert(c.len() == 2);
}

/// The families of path `q` hold on a window of path `p`.
#[verifier::rlimit(40)]
proof fn lemma_path_block(
    air: MmcsGroupPathAir,
    stmts: Seq<MmcsPathStatement>,
    p: int,
    q: int,
    pn: int,
    c: SegmentRow,
    n: SegmentRow,
    j: int,
    first: bool,
    trans: bool,
)
    requires
        group_covered(stmts),
        air.leaf_msg_len == 4 * stmts[0].row@.len(),
        air.depth == stmts[0].siblings@.len(),
        0 <= p < stmts.len(),
        0 <= q < stmts.len(),
        0 <= pn < stmts.len(),
        c.valid(),
        n.valid(),
        rows_of_path(
            c,
            n,
            trans && !n.start,
            j,
            row_bytes(vals(stmts[p].row@)),
            stmts[p].siblings@,
            stmts[p].index as int,
        ),
        !n.start ==> c.seg == n.seg && p == pn,
    ensures
        ({
            let pv = group_publics(stmts, stmts[0].siblings@.len() as int);
            let w = segment_window(c, n, number_bits(p, 7), number_bits(pn, 7), pv, first, trans);
            all_zero(air.path_block(w, q))
        }),
{
    let depth = stmts[0].siblings@.len();
    let pv = group_publics(stmts, depth as int);
    let tc = number_bits(p, 7);
    let tn = number_bits(pn, 7);
    let w = segment_window(c, n, tc, tn, pv, first, trans);
    let v = segment_vals(w);
    let same = !n.start;
    let s = stmts[q];
    let msg = row_bytes(vals(s.row@));
    let x = s.index as int;
    let off = m4b_offsets_spec(q, air.leaf_msg_len as int);
    let on = p == q;
    lemma_covered(stmts, q);
    lemma_group_listed(stmts, q);
    lemma_segment_parts(c, n, tc, tn, pv, first, trans);
    lemma_group_parts(p, pn, c, n, pv, first, trans);
    reveal_with_fuel(exp2, 8);
    lemma_number_eq(p, q, 7);
    let a = air.selectors(w, q);
    let b = row_selectors(c, n, trans, same, on, depth);
    assert(w.curr.subrange(1612, 1619) == tc);
    assert(eq_bits(v.seg_c, 0) == fbool(c.seg == 0));
    assert(a.leaf_start == b.leaf_start);
    assert(a.second_block == b.second_block);
    assert(a.leaf_idle == b.leaf_idle);
    assert forall|l: int| 0 <= l < depth implies #[trigger] a.layer_start[l] == b.layer_start[l] by {
        assert(eq_bits(v.seg_c, l + 1) == fbool(c.seg == l + 1));
    }
    assert forall|l: int| 0 <= l < depth implies #[trigger] a.layer_idle[l] == b.layer_idle[l] by {
        assert(eq_bits(v.seg_c, l + 1) == fbool(c.seg == l + 1));
    }
    assert(a =~= b);
    assert(v.cells =~= row_cells(c, n));
    lemma_path_zero(pv, off, msg, s.siblings@, x, c, n, j, trans, same, on);
    lemma_index_zero(pv, off, msg, s.siblings@, x);
    lemma_all_zero_concat(
        path_constraints(v.cells, pv, off, air.leaf_msg_len as int, depth, a),
        index_constraints(pv, off, depth as int),
    );
}

/// The trace of a covered group satisfies the group system on every row, with the group's
/// publics.
pub proof fn lemma_group_trace_satisfies(
    air: MmcsGroupPathAir,
    m: RowMajorMatrix,
    stmts: Seq<MmcsPathStatement>,
    i: int,
)
    requires
        group_covered(stmts),
        air.leaf_msg_len == 4 * stmts[0].row@.len(),
        air.depth == stmts[0].siblings@.len(),
        air.path_count == stmts.len(),
        m.width == M4B_GROUP_WIDTH,
        rows_are(m, group_rows(stmts, stmts.len())),
        0 <= i < m.rows(),
    ensures
        all_zero(
            air.constraints(
                m.window_vals(i, group_publics(stmts, stmts[0].siblings@.len() as int)),
            ),
        ),
{
    let rows = group_rows(stmts, stmts.len());
    let pv = group_publics(stmts, stmts[0].siblings@.len() as int);
    lemma_rows_count(m, rows);
    lemma_covered(stmts, 0);
    lemma_group_rows_start(stmts, stmts.len());
    let (p, seg, j) = lemma_in_group(stmts, stmts.len(), i);
    lemma_covered(stmts, p);
    let mc = stmt_msg(stmts[p], seg);
    let height = sponge_rows(mc.len());
    let last = i + 1 == rows.len();
    let goes_on = !last && j + 1 < height;
    let next_seg = !last && !goes_on && seg < stmts[p].siblings@.len();
    let pn: int = if goes_on || next_seg {
        p
    } else if last {
        0
    } else {
        p + 1
    };
    let seg_n: int = if goes_on {
        seg
    } else if next_seg {
        seg + 1
    } else {
        0
    };
    let jn: int = if goes_on {
        j + 1
    } else {
        0
    };
    lemma_covered(stmts, pn);
    lemma_group_row(stmts, p, seg, j);
    lemma_group_row(stmts, pn, seg_n, jn);
    let c = row_of(mc, seg, j);
    let n = row_of(stmt_msg(stmts[pn], seg_n), seg_n, jn);
    let w = segment_window(c, n, number_bits(p, 7), number_bits(pn, 7), pv, i == 0, !last);
    let k = if last {
        0
    } else {
        i + 1
    };
    assert(m.row(i) == rows[i]);
    assert(m.row(k) == rows[k]);
    assert(m.window_vals(i, pv) =~= w);
    lemma_group_window(air, stmts, p, pn, c, n, j, i == 0, !last);
}

/// The rows of a covered group are segment rows.
proof fn lemma_group_row(stmts: Seq<MmcsPathStatement>, p: int, seg: int, j: int)
    requires
        group_covered(stmts),
        0 <= p < stmts.len(),
        0 <= seg <= stmts[p].siblings@.len(),
        0 <= j,
    ensures
        ({
            let r = row_of(stmt_msg(stmts[p], seg), seg, j);
            &&& r.valid()
            &&& group_row(stmts, p, seg, j) == r.cells(number_bits(p, 7))
            &&& r.steps_to(row_of(stmt_msg(stmts[p], seg), seg, j + 1))
            &&& j == 0 ==> r.live
        }),
{
    let s = stmts[p];
    lemma_covered(stmts, p);
    if seg > 0 {
        lemma_layer_msg(row_bytes(vals(s.row@)), s.siblings@, s.index as int, seg - 1);
    }
    lemma_row_of(stmt_msg(s, seg), seg, j, number_bits(p, 7));
}

/// A window that satisfies the group system with the publics of a group shows that each of its
/// paths leads to the root it claims.
pub proof fn lemma_group_proves_roots(
    air: MmcsGroupPathAir,
    stmts: Seq<MmcsPathStatement>,
    w: WindowVals,
    p: int,
)
    requires
        one_shape(stmts),
        air.leaf_msg_len == 4 * stmts[0].row@.len(),
        air.depth == stmts[0].siblings@.len(),
        air.path_count == stmts.len(),
        w.pv == group_publics(stmts, stmts[0].siblings@.len() as int),
        all_zero(air.constraints(w)),
        0 <= p < stmts.len(),
    ensures
        stmt_root(stmts[p]) == stmts[p].root@,
{
    let same = MmcsGroupPathAir::same_meta(w);
    let f = |q: int| air.path_block(w, q);
    let c1 = segment_constraints(w, same);
    let c2 = hold_constraints(
        w.curr.subrange(1612, 1619),
        w.next.subrange(1612, 1619),
        fmul(w.trans, same),
    );
    let c3 = MmcsGroupPathAir::counter_constraints(w);
    let c4 = seq![fsub(w.pv[0], air.path_count as int), fsub(w.pv[1], air.depth as int)];
    let c5 = flat(air.path_count as nat, f);
    let c6 = seq![fmul(w.first, fsub(w.curr[1606], 1))];
    let c7 = zero_constraints(w.curr.subrange(1607, 1612), w.first);
    let c8 = zero_constraints(w.curr.subrange(1612, 1619), w.first);
    assert(air.constraints(w) == c1 + c2 + c3 + c4 + c5 + c6 + c7 + c8);
    lemma_all_zero_concat(c1 + c2 + c3 + c4 + c5 + c6 + c7, c8);
    lemma_all_zero_concat(c1 + c2 + c3 + c4 + c5 + c6, c7);
    lemma_all_zero_concat(c1 + c2 + c3 + c4 + c5, c6);
    lemma_all_zero_concat(c1 + c2 + c3 + c4, c5);
    lemma_flat_all_zero(air.path_count as nat, f);
    assert(all_zero(f(p)));
    let off = m4b_offsets_spec(p, air.leaf_msg_len as int);
    let depth = air.depth as nat;
    let a = path_constraints(
        segment_vals(w).cells,
        w.pv,
        off,
        air.leaf_msg_len as int,
        depth,
        air.selectors(w, p),
    );
    lemma_all_zero_concat(a, index_constraints(w.pv, off, depth as int));
    lemma_path_root_part(
        segment_vals(w).cells,
        w.pv,
        off,
        air.leaf_msg_len as int,
        depth,
        air.selectors(w, p),
    );
    lemma_root_listed(stmts, p);
}

/// The last family of satisfied path constraints.
proof fn lemma_path_root_part(
    c: SpongeCellVals,
    pv: Seq<int>,
    off: PathOffsets,
    len: int,
    depth: nat,
    s: PathSelectorVals,
)
    requires
        all_zero(path_constraints(c, pv, off, len, depth, s)),
    ensures
        forall|i: int|
            0 <= i < 32 ==> #[trigger] fsub(
                pv[off.layers + 32 * (depth - 1) + i],
                pv[off.root + i],
            ) == 0,
{
    reveal(path_constraints);
    let all = path_constraints(c, pv, off, len, depth, s);
    let t = Seq::new(
        32,
        |i: int| fsub(pv[off.layers + 32 * (depth - 1) + i], pv[off.root + i]),
    );
    let n = all.len() - 32;
    assert forall|i: int| 0 <= i < 32 implies #[trigger] fsub(
        pv[off.layers + 32 * (depth - 1) + i],
        pv[off.root + i],
    ) == 0 by {
        assert(all[n + i] == t[i]);
    }
}

/// The root and the last level digest of a path among the group's publics.
proof fn lemma_root_listed(stmts: Seq<MmcsPathStatement>, p: int)
    requires
        one_shape(stmts),
        0 <= p < stmts.len(),
        ({
            let len = 4 * stmts[0].row@.len() as int;
            let depth = stmts[0].siblings@.len();
            let off = m4b_offsets_spec(p, len);
            let pv = group_publics(stmts, depth as int);
            forall|i: int|
                0 <= i < 32 ==> #[trigger] fsub(
                    pv[off.layers + 32 * (depth - 1) + i],
                    pv[off.root + i],
                ) == 0
        }),
    ensures
        stmt_root(stmts[p]) == stmts[p].root@,
{
    let s = stmts[p];
    let row = vals(s.row@);
    let msg = row_bytes(row);
    let leaf = keccak_leaf(row);
    let x = s.index as int;
    let o = 4 * stmts[0].row@.len() as int;
    let k = o + 1365;
    let depth = stmts[0].siblings@.len();
    let pv = group_publics(stmts, depth as int);
    let off = m4b_offsets_spec(p, o);
    lemma_publics_there(stmts, p);
    lemma_digest_len(msg);
    assert(s.siblings@.len() == depth && s.row@.len() == stmts[0].row@.len());
    lemma_layer_msg(msg, s.siblings@, x, depth - 1);
    let b = 2 + p * k;
    let mine = stmt_publics(s);
    let there = pv.subrange(b, b + k);
    let roots = mine.subrange(o + 32, o + 64);
    let digests = mine.subrange(o + 725, o + 1365);
    assert(roots =~= byte_vals(s.root@));
    assert(digests =~= padded_layer_vals(leaf, s.siblings@, x));
    assert forall|i: int| 0 <= i < 32 implies #[trigger] stmt_root(s)[i] == s.root@[i] by {
        let l = depth - 1;
        let at = 32 * l + i;
        assert(at / 32 == l && at % 32 == i);
        assert(pv[off.root + i] == there[o + 32 + i]);
        assert(there[o + 32 + i] == roots[i]);
        assert(pv[off.layers + 32 * (depth - 1) + i] == there[o + 725 + at]);
        assert(there[o + 725 + at] == digests[at]);
        assert(fsub(pv[off.layers + 32 * (depth - 1) + i], pv[off.root + i]) == 0);
        assert(digests[at] == stmt_root(s)[i]);
    }
    assert(stmt_root(s) =~= s.root@);
}

} // verus!
