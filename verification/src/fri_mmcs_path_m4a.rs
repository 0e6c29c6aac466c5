//! One Merkle path as a single multi-segment Keccak constraint system.
//!
//! A leaf segment hashes the row; one compress segment per level hashes the running digest
//! and its sibling. Leaves may take one or two permutations.
use vstd::prelude::*;

use crate::constraint::{
    assert_bits, bit_constraints, evals, ConstraintSink, Expr, Window, WindowVals,
};
use crate::field::{fbool, fmul, fsub, vals, Val, P};
use crate::fri_mmcs_path::FRI_MMCS_MAX_DEPTH;
use crate::keccak256_air::{same_digest, ROUND_BIT_COL, SPONGE_WIDTH};
use crate::keccak_f_air::{round_cells, LIVE_COL};
use crate::keccak_f_native::{
    keccak256_val_leaf, row_bytes, val_row_to_bytes, KECCAK_RATE, KECCAK_STATE_BITS,
};
use crate::matrix::{byte_vals, push_bytes, push_val, RowMajorMatrix};
use crate::merkle::{is_path_layers, path_root};
use crate::merkle_keccak::{keccak_leaf, keccak_pair};
use crate::path_gadgets::{
    constrain_index, constrain_path, index_constraints, offsets_fit, path_constraints,
    same_bits_expr, same_bits_upto, PathOffsets, PathSelectorVals, PathSelectors, SpongeCellVals,
    SpongeCells,
};
use crate::segments::{
    append_path, fold_path_keccak, index_bit_vals, layer_msgs, lemma_padded_layers, msg_views,
    padded_digest_vals, padded_layer_vals, path_rows, push_index_bits, push_padded_digests,
    rows_are,
};
use crate::sponge_gadgets::{
    bits_value, bits_value_expr, constrain_hold, constrain_round_counter, constrain_step,
    constrain_zero, eq_bits, eq_bits_const, hold_constraints, rc_bits_from_round, rc_select,
    round_counter_constraints, step_constraints, zero_constraints,
};

verus! {

/// Rows of a one-permutation segment.
pub const M4A_SEG_ROWS: usize = 32;

pub const M4A_SEG_START_COL: usize = 1606;

pub const M4A_SEG_IDX_COL: usize = 1607;

pub const M4A_SEG_IDX_BITS: usize = 5;

pub const M4A_PATH_WIDTH: usize = 1612;

/// Number of public values for a leaf message of `leaf_msg_len` bytes: message, leaf digest,
/// root, index, depth, index bits, siblings, level digests.
pub fn m4a_num_public(leaf_msg_len: usize) -> (r: usize)
    requires
        leaf_msg_len + 1366 <= usize::MAX,
    ensures
        r == leaf_msg_len + 1366,
{
    leaf_msg_len + 32 + 32 + 1 + 1 + FRI_MMCS_MAX_DEPTH + FRI_MMCS_MAX_DEPTH * 32
        + FRI_MMCS_MAX_DEPTH * 32
}

/// Where each part of the public values starts.
pub open spec fn m4a_offsets_spec(len: usize) -> PathOffsets {
    PathOffsets {
        msg: 0,
        leaf_digest: len,
        root: (len + 32) as usize,
        index: (len + 64) as usize,
        index_bits: (len + 66) as usize,
        siblings: (len + 86) as usize,
        layers: (len + 726) as usize,
    }
}

fn m4a_offsets(len: usize) -> (r: PathOffsets)
    requires
        len + 1366 <= usize::MAX,
    ensures
        r == m4a_offsets_spec(len),
        offsets_fit(r, len as int, len as int + 1366),
{
    PathOffsets {
        msg: 0,
        leaf_digest: len,
        root: len + 32,
        index: len + 64,
        index_bits: len + 66,
        siblings: len + 86,
        layers: len + 726,
    }
}

/// The system for one path.
#[derive(Copy, Clone, Debug)]
pub struct MmcsBatchedPathAir {
    pub leaf_msg_len: usize,
    pub depth: usize,
}

/// The parts of a segmented row pair that every segment system reads.
#[verifier::ext_equal]
pub struct SegmentVals {
    pub cells: SpongeCellVals,
    pub both_live: int,
    pub wrap: int,
    pub idle: int,
    pub seg_start: int,
    pub seg_c: Seq<int>,
    pub seg_n: Seq<int>,
}

/// Reads a segmented row pair.
pub open spec fn segment_vals(w: WindowVals) -> SegmentVals {
    let round_c = w.curr.subrange(1601, 1606);
    let round_n = w.next.subrange(1601, 1606);
    SegmentVals {
        cells: SpongeCellVals {
            state_c: w.curr.take(1600),
            state_n: w.next.take(1600),
            rc: rc_select(round_c),
            live: w.curr[1600],
            round_c: bits_value(round_c),
            round_n: bits_value(round_n),
        },
        both_live: fmul(w.curr[1600], w.next[1600]),
        wrap: fmul(eq_bits(round_c, 23), eq_bits(round_n, 0)),
        idle: fsub(1, w.curr[1600]),
        seg_start: w.curr[1606],
        seg_c: w.curr.subrange(1607, 1612),
        seg_n: w.next.subrange(1607, 1612),
    }
}

/// The sponge constraints of a segmented row pair, where `same` is on within a segment.
#[verifier::opaque]
pub open spec fn segment_constraints(w: WindowVals, same: int) -> Seq<int> {
    let v = segment_vals(w);
    let c = v.cells;
    bit_constraints(w.curr) + round_counter_constraints(c.live, w.curr.subrange(1601, 1606))
        + step_constraints(
        c.state_c,
        c.state_n,
        c.rc,
        fmul(w.trans, fmul(fmul(v.both_live, fsub(1, v.wrap)), same)),
        fmul(w.trans, fmul(fmul(c.live, fsub(1, w.next[1600])), same)),
        c.round_c,
        c.round_n,
    ) + hold_constraints(
        w.curr.take(1606),
        w.next.take(1606),
        fmul(fmul(w.trans, v.idle), same),
    ) + hold_constraints(v.seg_c, v.seg_n, fmul(w.trans, same))
}

/// The expressions behind [`SegmentVals`].
pub struct SegmentExprs<E> {
    pub rc: Vec<E>,
    pub expected: Vec<E>,
    pub live: E,
    pub round_c: E,
    pub round_n: E,
    pub both_live: E,
    pub wrap: E,
    pub idle: E,
}

/// Emits the sponge constraints of a segmented row pair.
pub fn constrain_segment<S: ConstraintSink>(sink: &mut S, w: &Window<S::E>, same: &S::E) -> (r:
    SegmentExprs<S::E>)
    requires
        w.curr@.len() >= 1612,
        w.next@.len() == w.curr@.len(),
    ensures
        final(sink).emitted() == old(sink).emitted() + segment_constraints(w@, same.val()),
        r.rc@.len() == 64,
        evals(r.rc@) == segment_vals(w@).cells.rc,
        r.expected@.len() == 1600,
        evals(r.expected@) == round_cells(
            segment_vals(w@).cells.state_c,
            segment_vals(w@).cells.rc,
        ),
        r.live.val() == segment_vals(w@).cells.live,
        r.round_c.val() == segment_vals(w@).cells.round_c,
        r.round_n.val() == segment_vals(w@).cells.round_n,
        r.both_live.val() == segment_vals(w@).both_live,
        r.wrap.val() == segment_vals(w@).wrap,
        r.idle.val() == segment_vals(w@).idle,
{
    let ghost e0 = sink.emitted();
    let one = <S::E as Expr>::lit(1);
    let curr = w.curr.as_slice();
    let next = w.next.as_slice();
    assert_bits(sink, curr);
    let state_c = vstd::slice::slice_subrange(curr, 0, KECCAK_STATE_BITS);
    let state_n = vstd::slice::slice_subrange(next, 0, KECCAK_STATE_BITS);
    let round_bits_c = vstd::slice::slice_subrange(curr, ROUND_BIT_COL, SPONGE_WIDTH);
    let round_bits_n = vstd::slice::slice_subrange(next, ROUND_BIT_COL, SPONGE_WIDTH);
    let seg_c = vstd::slice::slice_subrange(curr, M4A_SEG_IDX_COL, M4A_PATH_WIDTH);
    let seg_n = vstd::slice::slice_subrange(next, M4A_SEG_IDX_COL, M4A_PATH_WIDTH);
    let sponge_c = vstd::slice::slice_subrange(curr, 0, SPONGE_WIDTH);
    let sponge_n = vstd::slice::slice_subrange(next, 0, SPONGE_WIDTH);
    proof {
        assert(evals(state_c@) =~= w@.curr.take(1600));
        assert(evals(state_n@) =~= w@.next.take(1600));
        assert(evals(round_bits_c@) =~= w@.curr.subrange(1601, 1606));
        assert(evals(round_bits_n@) =~= w@.next.subrange(1601, 1606));
        assert(evals(seg_c@) =~= w@.curr.subrange(1607, 1612));
        assert(evals(seg_n@) =~= w@.next.subrange(1607, 1612));
        assert(evals(sponge_c@) =~= w@.curr.take(1606));
        assert(evals(sponge_n@) =~= w@.next.take(1606));
    }
    let live = curr[LIVE_COL].dup();
    let live_n = next[LIVE_COL].dup();
    let round_c = bits_value_expr(round_bits_c);
    let round_n = bits_value_expr(round_bits_n);
    constrain_round_counter(sink, &live, round_bits_c);
    let rc = rc_bits_from_round(round_bits_c);
    let both_live = live.times(&live_n);
    let wrap = eq_bits_const(round_bits_c, 23).times(&eq_bits_const(round_bits_n, 0));
    let idle = one.minus(&live);
    let cont_en = w.trans.times(&both_live.times(&one.minus(&wrap)).times(same));
    let final_en = w.trans.times(&live.times(&one.minus(&live_n)).times(same));
    let expected = constrain_step(
        sink,
        state_c,
        state_n,
        rc.as_slice(),
        &cont_en,
        &final_en,
        &round_c,
        &round_n,
    );
    let hold_en = w.trans.times(&idle).times(same);
    constrain_hold(sink, sponge_c, sponge_n, &hold_en);
    let seg_en = w.trans.times(same);
    constrain_hold(sink, seg_c, seg_n, &seg_en);
    proof {
        reveal(segment_constraints);
        assert(sink.emitted() =~= e0 + segment_constraints(w@, same.val()));
    }
    SegmentExprs { rc, expected, live, round_c, round_n, both_live, wrap, idle }
}

impl MmcsBatchedPathAir {
    pub fn width(&self) -> (r: usize)
        ensures
            r == M4A_PATH_WIDTH,
    {
        M4A_PATH_WIDTH
    }

    pub fn max_constraint_degree(&self) -> (r: Option<usize>)
        ensures
            r == None::<usize>,
    {
        None
    }

    pub fn num_public_values(&self) -> (r: usize)
        requires
            self.leaf_msg_len + 1366 <= usize::MAX,
        ensures
            r == self.leaf_msg_len + 1366,
    {
        m4a_num_public(self.leaf_msg_len)
    }

    /// One within a segment.
    pub open spec fn same_segment(w: WindowVals) -> int {
        let v = segment_vals(w);
        same_bits_upto(fsub(1, w.next[1606]), v.seg_c, v.seg_n, 5)
    }

    /// The selectors of the path's segments.
    pub open spec fn selectors(self, w: WindowVals) -> PathSelectorVals {
        let v = segment_vals(w);
        let same = Self::same_segment(w);
        PathSelectorVals {
            leaf_start: fmul(v.seg_start, eq_bits(v.seg_c, 0)),
            second_block: fmul(
                fmul(fmul(fmul(w.trans, v.both_live), v.wrap), same),
                eq_bits(v.seg_c, 0),
            ),
            layer_start: Seq::new(
                self.depth as nat,
                |l: int| fmul(v.seg_start, eq_bits(v.seg_c, l + 1)),
            ),
            leaf_idle: fmul(v.idle, eq_bits(v.seg_c, 0)),
            layer_idle: Seq::new(
                self.depth as nat,
                |l: int| fmul(v.idle, eq_bits(v.seg_c, l + 1)),
            ),
        }
    }

    /// The values the system emits on a window.
    pub open spec fn constraints(self, w: WindowVals) -> Seq<int> {
        let off = m4a_offsets_spec(self.leaf_msg_len);
        segment_constraints(w, Self::same_segment(w)) + path_constraints(
            segment_vals(w).cells,
            w.pv,
            off,
            self.leaf_msg_len as int,
            self.depth as nat,
            self.selectors(w),
        ) + seq![fsub(w.pv[self.leaf_msg_len + 65], self.depth as int)] + index_constraints(
            w.pv,
            off,
            self.depth as int,
        ) + seq![fmul(w.first, fsub(w.curr[1606], 1))] + zero_constraints(
            w.curr.subrange(1607, 1612),
            w.first,
        )
    }

    /// Emits the system's constraints: segments run the sponge, the leaf and each level absorb
    /// what the path says, each segment yields its public digest, the last is the root, and
    /// the first row starts segment zero.
    pub fn eval<S: ConstraintSink>(&self, sink: &mut S, w: &Window<S::E>)
        requires
            w.curr@.len() == M4A_PATH_WIDTH,
            w.next@.len() == M4A_PATH_WIDTH,
            self.leaf_msg_len <= 272,
            0 < self.depth <= FRI_MMCS_MAX_DEPTH,
            w.pv@.len() == self.leaf_msg_len + 1366,
        ensures
            final(sink).emitted() == old(sink).emitted() + self.constraints(w@),
    {
        let ghost e0 = sink.emitted();
        let one = <S::E as Expr>::lit(1);
        let curr = w.curr.as_slice();
        let next = w.next.as_slice();
        let pv = w.pv.as_slice();
        let state_c = vstd::slice::slice_subrange(curr, 0, KECCAK_STATE_BITS);
        let state_n = vstd::slice::slice_subrange(next, 0, KECCAK_STATE_BITS);
        let seg_c = vstd::slice::slice_subrange(curr, M4A_SEG_IDX_COL, M4A_PATH_WIDTH);
        let seg_n = vstd::slice::slice_subrange(next, M4A_SEG_IDX_COL, M4A_PATH_WIDTH);
        let ghost v = segment_vals(w@);
        proof {
            assert(evals(state_c@) =~= v.cells.state_c);
            assert(evals(state_n@) =~= v.cells.state_n);
            assert(evals(seg_c@) =~= v.seg_c);
            assert(evals(seg_n@) =~= v.seg_n);
        }
        let same = same_bits_expr(one.minus(&next[M4A_SEG_START_COL]), seg_c, seg_n);
        let x = constrain_segment(sink, w, &same);
        let at_leaf = eq_bits_const(seg_c, 0);
        let seg_start = curr[M4A_SEG_START_COL].dup();
        let mut layer_start: Vec<S::E> = Vec::new();
        let mut layer_idle: Vec<S::E> = Vec::new();
        let mut l: usize = 0;
        while l < self.depth
            invariant
                l <= self.depth,
                self.depth <= 20,
                seg_start.val() == v.seg_start,
                x.idle.val() == v.idle,
                evals(seg_c@) == v.seg_c,
                layer_start@.len() == l,
                layer_idle@.len() == l,
                forall|k: int|
                    0 <= k < l ==> #[trigger] layer_start@[k].val() == fmul(
                        v.seg_start,
                        eq_bits(v.seg_c, k + 1),
                    ),
                forall|k: int|
                    0 <= k < l ==> #[trigger] layer_idle@[k].val() == fmul(
                        v.idle,
                        eq_bits(v.seg_c, k + 1),
                    ),
            decreases self.depth - l,
        {
            let at = eq_bits_const(seg_c, (l + 1) as u32);
            layer_start.push(seg_start.times(&at));
            layer_idle.push(x.idle.times(&at));
            l += 1;
        }
        let sel = PathSelectors {
            leaf_start: seg_start.times(&at_leaf),
            second_block: w.trans.times(&x.both_live).times(&x.wrap).times(&same).times(&at_leaf),
            layer_start,
            leaf_idle: x.idle.times(&at_leaf),
            layer_idle,
        };
        proof {
            assert(sel@ =~= self.selectors(w@));
        }
        let off = m4a_offsets(self.leaf_msg_len);
        let cells = SpongeCells {
            state_c,
            state_n,
            rc: x.rc.as_slice(),
            expected: x.expected.as_slice(),
            live: &x.live,
            round_c: &x.round_c,
            round_n: &x.round_n,
        };
        proof {
            assert(cells@ =~= v.cells);
        }
        constrain_path(sink, &cells, pv, off, self.leaf_msg_len, self.depth, &sel);
        let d = <S::E as Expr>::lit(self.depth as u32);
        sink.assert_zero(pv[self.leaf_msg_len + 65].minus(&d));
        constrain_index(sink, pv, off, self.depth);
        sink.assert_zero(w.first.times(&curr[M4A_SEG_START_COL].minus(&one)));
        constrain_zero(sink, seg_c, &w.first);
        proof {
            assert(sink.emitted() =~= e0 + self.constraints(w@));
        }
    }
}

/// One path as a single proof.
#[derive(Debug, Clone, PartialEq, Eq)]
pub struct FriMmcsBatchedPathProof {
    pub depth: u32,
    pub leaf_width: u32,
    pub leaf_digest: [u8; 32],
    pub layer_digests: Vec<[u8; 32]>,
    pub path_stark: Vec<u8>,
}

/// Why no path proof was made.
#[derive(Debug, Clone, PartialEq, Eq)]
pub enum BatchedPathError {
    /// No siblings, or more than [`FRI_MMCS_MAX_DEPTH`].
    Depth,
    /// The row does not serialize to a message of one or two permutations.
    LeafLen,
    /// The path does not lead to the expected root.
    RootMismatch,
    /// The proof system reported an error.
    Backend(String),
}

/// The public values of a path: message, leaf digest, root, index, depth, index bits,
/// siblings and level digests, the lists filled up to twenty entries.
pub open spec fn batched_path_publics(
    leaf_msg: Seq<u8>,
    leaf: Seq<u8>,
    root: Seq<u8>,
    index: u32,
    siblings: Seq<[u8; 32]>,
    layers: Seq<[u8; 32]>,
) -> Seq<int> {
    byte_vals(leaf_msg) + byte_vals(leaf) + byte_vals(root) + seq![
        index as int % (P as int),
        siblings.len() as int,
    ] + index_bit_vals(index as int, siblings.len() as int) + padded_digest_vals(siblings)
        + padded_digest_vals(layers)
}

/// Builds the public values; `None` unless both lists have the given depth, one to twenty.
pub fn build_public_values(
    leaf_msg: &[u8],
    leaf_digest: &[u8; 32],
    root: &[u8; 32],
    index: u32,
    depth: usize,
    siblings: &[[u8; 32]],
    layer_digests: &[[u8; 32]],
) -> (r: Option<Vec<Val>>)
    ensures
        r is Some <==> 0 < depth <= FRI_MMCS_MAX_DEPTH && siblings@.len() == depth
            && layer_digests@.len() == depth,
        r matches Some(pv) ==> vals(pv@) == batched_path_publics(
            leaf_msg@,
            leaf_digest@,
            root@,
            index,
            siblings@,
            layer_digests@,
        ) && pv@.len() == leaf_msg@.len() + 1366,
{
    if depth == 0 || depth > FRI_MMCS_MAX_DEPTH {
        return None;
    }
    if siblings.len() != depth || layer_digests.len() != depth {
        return None;
    }
    let mut pv: Vec<Val> = Vec::new();
    push_bytes(&mut pv, leaf_msg);
    push_bytes(&mut pv, vstd::array::array_as_slice(leaf_digest));
    push_bytes(&mut pv, vstd::array::array_as_slice(root));
    push_val(&mut pv, Val::from_u32(index));
    push_val(&mut pv, Val::from_u32(depth as u32));
    push_index_bits(&mut pv, index, depth);
    push_padded_digests(&mut pv, siblings);
    push_padded_digests(&mut pv, layer_digests);
    proof {
        let want = batched_path_publics(
            leaf_msg@,
            leaf_digest@,
            root@,
            index,
            siblings@,
            layer_digests@,
        );
        assert(vals(pv@) =~= want);
        assert(vals(pv@).len() == pv@.len());
    }
    Some(pv)
}

/// The public values of the path of a row.
pub open spec fn path_claim_publics(
    row: Seq<int>,
    siblings: Seq<[u8; 32]>,
    index: usize,
    root: Seq<u8>,
) -> Seq<int> {
    let leaf = keccak_leaf(row);
    byte_vals(row_bytes(row)) + byte_vals(leaf) + byte_vals(root) + seq![
        (index as u32) as int % (P as int),
        siblings.len() as int,
    ] + index_bit_vals((index as u32) as int, siblings.len() as int) + padded_digest_vals(siblings)
        + padded_layer_vals(leaf, siblings, index as int)
}

/// `m` is the trace of the path of a row.
pub open spec fn is_path_trace(
    m: RowMajorMatrix,
    row: Seq<int>,
    siblings: Seq<[u8; 32]>,
    index: int,
) -> bool {
    m.width == M4A_PATH_WIDTH && rows_are(
        m,
        path_rows(
            row_bytes(row),
            layer_msgs(keccak_leaf(row), siblings, index),
            siblings.len(),
            Seq::empty(),
        ),
    )
}

fn build_path_matrix(leaf_msg: &[u8], compress_msgs: &Vec<[u8; 64]>) -> (m: RowMajorMatrix)
    ensures
        m.width == M4A_PATH_WIDTH,
        rows_are(
            m,
            path_rows(leaf_msg@, msg_views(compress_msgs@), compress_msgs@.len(), Seq::empty()),
        ),
{
    let mut m = RowMajorMatrix { values: Vec::new(), width: M4A_PATH_WIDTH };
    let tail: Vec<bool> = Vec::new();
    append_path(&mut m, leaf_msg, compress_msgs, &tail, Ghost(Seq::empty()));
    proof {
        let tv = Seq::new(tail@.len(), |k: int| fbool(tail@[k]));
        assert(tv =~= Seq::<int>::empty());
        let rows = path_rows(leaf_msg@, msg_views(compress_msgs@), compress_msgs@.len(), tv);
        assert(Seq::<Seq<int>>::empty() + rows =~= rows);
    }
    m
}

/// A row whose message takes one or two permutations.
pub open spec fn path_leaf_ok(width: int) -> bool {
    12 <= 4 * width < 272
}

/// `reply` is what the prover answered for this path.
pub open spec fn path_prover_reply<
    F: Fn(&MmcsBatchedPathAir, &RowMajorMatrix, &[Val]) -> Result<Vec<u8>, String>,
>(
    prover: F,
    row: Seq<int>,
    siblings: Seq<[u8; 32]>,
    index: usize,
    root: Seq<u8>,
    reply: Result<Vec<u8>, String>,
) -> bool {
    exists|a: &MmcsBatchedPathAir, m: &RowMajorMatrix, p: &[Val]|
        {
            &&& #[trigger] call_ensures(prover, (a, m, p), reply)
            &&& a.leaf_msg_len == 4 * row.len()
            &&& a.depth == siblings.len()
            &&& is_path_trace(*m, row, siblings, index as int)
            &&& vals(p@) == path_claim_publics(row, siblings, index, root)
        }
}

/// What proving a path may return.
pub open spec fn batched_prove_outcome<
    F: Fn(&MmcsBatchedPathAir, &RowMajorMatrix, &[Val]) -> Result<Vec<u8>, String>,
>(
    prover: F,
    row: Seq<int>,
    siblings: Seq<[u8; 32]>,
    index: usize,
    root: Seq<u8>,
    r: Result<FriMmcsBatchedPathProof, BatchedPathError>,
) -> bool {
    let leaf = keccak_leaf(row);
    if siblings.len() == 0 || siblings.len() > FRI_MMCS_MAX_DEPTH {
        r == Err::<FriMmcsBatchedPathProof, BatchedPathError>(BatchedPathError::Depth)
    } else if !path_leaf_ok(row.len() as int) {
        r == Err::<FriMmcsBatchedPathProof, BatchedPathError>(BatchedPathError::LeafLen)
    } else if path_root(keccak_pair(), leaf, siblings, index as int) != root {
        r == Err::<FriMmcsBatchedPathProof, BatchedPathError>(BatchedPathError::RootMismatch)
    } else {
        match r {
            Ok(p) => {
                &&& p.depth == siblings.len()
                &&& p.leaf_width == row.len()
                &&& p.leaf_digest@ == leaf
                &&& is_path_layers(p.layer_digests@, keccak_pair(), leaf, siblings, index as int)
                &&& path_prover_reply(prover, row, siblings, index, root, Ok(p.path_stark))
            },
            Err(BatchedPathError::Backend(e)) => path_prover_reply(
                prover,
                row,
                siblings,
                index,
                root,
                Err(e),
            ),
            _ => false,
        }
    }
}

/// Proves a path with the given proof system.
pub fn generate_fri_mmcs_batched_path_proof<
    F: Fn(&MmcsBatchedPathAir, &RowMajorMatrix, &[Val]) -> Result<Vec<u8>, String>,
>(
    row: &[Val],
    siblings: &[[u8; 32]],
    index: usize,
    expected_root: &[u8; 32],
    prover: &F,
) -> (r: Result<FriMmcsBatchedPathProof, BatchedPathError>)
    requires
        forall|a: &MmcsBatchedPathAir, m: &RowMajorMatrix, p: &[Val]|
            call_requires(*prover, (a, m, p)),
    ensures
        batched_prove_outcome(*prover, vals(row@), siblings@, index, expected_root@, r),
{
    let depth: usize = siblings.len();
    if depth == 0 || depth > FRI_MMCS_MAX_DEPTH {
        return Err(BatchedPathError::Depth);
    }
    let leaf_msg = val_row_to_bytes(row);
    if leaf_msg.len() < 12 || leaf_msg.len() >= 2 * KECCAK_RATE {
        return Err(BatchedPathError::LeafLen);
    }
    let leaf_digest = keccak256_val_leaf(row);
    let (layer_digests, msgs) = fold_path_keccak(leaf_digest, siblings, index);
    if !same_digest(&layer_digests[depth - 1], expected_root) {
        return Err(BatchedPathError::RootMismatch);
    }
    let air = MmcsBatchedPathAir { leaf_msg_len: leaf_msg.len(), depth };
    let matrix = build_path_matrix(leaf_msg.as_slice(), &msgs);
    let pv = match build_public_values(
        leaf_msg.as_slice(),
        &leaf_digest,
        expected_root,
        index as u32,
        depth,
        siblings,
        layer_digests.as_slice(),
    ) {
        Some(pv) => pv,
        None => {
            return Err(BatchedPathError::Depth);
        },
    };
    let publics: &[Val] = pv.as_slice();
    let reply = prover(&air, &matrix, publics);
    proof {
        let leaf = keccak_leaf(vals(row@));
        assert(call_ensures(*prover, (&air, &matrix, publics), reply));
        lemma_padded_layers(layer_digests@, leaf, siblings@, index as int);
        assert(leaf_msg@ == row_bytes(vals(row@)));
        assert(msgs@.len() == msg_views(msgs@).len());
        assert(is_path_trace(matrix, vals(row@), siblings@, index as int));
        assert(vals(publics@) == path_claim_publics(
            vals(row@),
            siblings@,
            index,
            expected_root@,
        ));
        assert(path_prover_reply(
            *prover,
            vals(row@),
            siblings@,
            index,
            expected_root@,
            reply,
        ));
    }
    match reply {
        Ok(path_stark) => Ok(
            FriMmcsBatchedPathProof {
                depth: depth as u32,
                leaf_width: row.len() as u32,
                leaf_digest,
                layer_digests,
                path_stark,
            },
        ),
        Err(e) => Err(BatchedPathError::Backend(e)),
    }
}

/// The digests a path proof carries are those of the path, and it leads to the root.
pub open spec fn batched_path_shape(
    row: Seq<int>,
    siblings: Seq<[u8; 32]>,
    index: int,
    root: Seq<u8>,
    p: FriMmcsBatchedPathProof,
) -> bool {
    let leaf = keccak_leaf(row);
    &&& siblings.len() == p.depth
    &&& row.len() == p.leaf_width
    &&& 0 < p.depth <= FRI_MMCS_MAX_DEPTH
    &&& p.leaf_digest@ == leaf
    &&& is_path_layers(p.layer_digests@, keccak_pair(), leaf, siblings, index)
    &&& path_root(keccak_pair(), leaf, siblings, index) == root
}

/// What checking a path proof may return: false where its digests are not those of the path,
/// else the verifier's verdict on its bytes.
pub open spec fn batched_verify_outcome<V: Fn(&MmcsBatchedPathAir, &[Val], &[u8]) -> bool>(
    verifier: V,
    row: Seq<int>,
    siblings: Seq<[u8; 32]>,
    index: usize,
    root: Seq<u8>,
    proof: FriMmcsBatchedPathProof,
    r: bool,
) -> bool {
    if batched_path_shape(row, siblings, index as int, root, proof) {
        exists|a: &MmcsBatchedPathAir, p: &[Val], b: &[u8]|
            {
                &&& #[trigger] call_ensures(verifier, (a, p, b), r)
                &&& a.leaf_msg_len == 4 * row.len()
                &&& a.depth == siblings.len()
                &&& b@ == proof.path_stark@
                &&& vals(p@) == path_claim_publics(row, siblings, index, root)
            }
    } else {
        !r
    }
}

/// Checks a path proof: its digests natively, its bytes with the given verifier.
pub fn verify_fri_mmcs_batched_path_proof<V: Fn(&MmcsBatchedPathAir, &[Val], &[u8]) -> bool>(
    row: &[Val],
    siblings: &[[u8; 32]],
    index: usize,
    expected_root: &[u8; 32],
    proof: &FriMmcsBatchedPathProof,
    verifier: &V,
) -> (r: bool)
    requires
        forall|a: &MmcsBatchedPathAir, p: &[Val], b: &[u8]| call_requires(*verifier, (a, p, b)),
    ensures
        batched_verify_outcome(
            *verifier,
            vals(row@),
            siblings@,
            index,
            expected_root@,
            *proof,
            r,
        ),
{
    let depth: usize = proof.depth as usize;
    if siblings.len() != depth || proof.layer_digests.len() != depth || row.len()
        != proof.leaf_width as usize || depth == 0 || depth > FRI_MMCS_MAX_DEPTH {
        return false;
    }
    let leaf_msg = val_row_to_bytes(row);
    let leaf = keccak256_val_leaf(row);
    if !same_digest(&proof.leaf_digest, &leaf) {
        return false;
    }
    let (layers, _msgs) = fold_path_keccak(leaf, siblings, index);
    let mut i: usize = 0;
    while i < depth
        invariant
            i <= depth,
            depth == siblings@.len(),
            depth == proof.layer_digests@.len(),
            leaf@ == keccak_leaf(vals(row@)),
            is_path_layers(layers@, keccak_pair(), leaf@, siblings@, index as int),
            forall|k: int| 0 <= k < i ==> proof.layer_digests@[k] == layers@[k],
        decreases depth - i,
    {
        if !same_digest(&layers[i], &proof.layer_digests[i]) {
            return false;
        }
        i += 1;
    }
    proof {
        assert(proof.layer_digests@ =~= layers@);
        lemma_padded_layers(layers@, leaf@, siblings@, index as int);
    }
    if !same_digest(&layers[depth - 1], expected_root) {
        return false;
    }
    let air = MmcsBatchedPathAir { leaf_msg_len: leaf_msg.len(), depth };
    let pv = match build_public_values(
        leaf_msg.as_slice(),
        &proof.leaf_digest,
        expected_root,
        index as u32,
        depth,
        siblings,
        proof.layer_digests.as_slice(),
    ) {
        Some(pv) => pv,
        None => {
            return false;
        },
    };
    verifier(&air, pv.as_slice(), proof.path_stark.as_slice())
}

} // verus!
