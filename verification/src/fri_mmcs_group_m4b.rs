//! Many Merkle paths of one shape as a single constraint system.
//!
//! Each path is laid out as in the single-path system, with a path counter added; the paths'
//! public values follow one another.
use vstd::prelude::*;

use crate::checks::{first_some, lemma_first_some_stops};
use crate::constraint::{evals, ConstraintSink, Expr, Window, WindowVals};
use crate::field::{fbool, fmul, fsub, vals, Val, P};
use crate::fri_mmcs_path::FRI_MMCS_MAX_DEPTH;
use crate::fri_mmcs_path_m4a::{
    constrain_segment, path_leaf_ok, segment_constraints, segment_vals, M4A_PATH_WIDTH,
    M4A_SEG_IDX_COL, M4A_SEG_START_COL,
};
use crate::keccak256_air::same_digest;
use crate::keccak_f_air::round_cells;
use crate::keccak_f_native::{
    keccak256_val_leaf, row_bytes, val_row_to_bytes, KECCAK_RATE, KECCAK_STATE_BITS,
};
use crate::matrix::{byte_vals, push_bytes, push_val, RowMajorMatrix};
use crate::merkle::path_root;
use crate::merkle_keccak::{keccak_leaf, keccak_pair};
use crate::path_gadgets::{
    constrain_index, constrain_path, flat, index_constraints, offsets_fit, path_constraints,
    same_bits_expr, same_bits_upto, PathOffsets, PathSelectorVals, PathSelectors, SpongeCells,
};
use crate::segments::{
    append_path, fold_path_keccak, index_bit_vals, layer_msgs, lemma_padded_layers, low_bits,
    msg_views, number_bits, padded_digest_vals, padded_layer_vals, path_rows, push_index_bits,
    push_padded_digests, rows_are,
};
use crate::sponge_gadgets::{
    bits_value, bits_value_expr, constrain_hold, constrain_zero, eq_bits, eq_bits_const,
    hold_constraints, zero_constraints,
};

verus! {

/// Most paths in one group.
pub const M4B_MAX_PATHS: usize = 128;

/// Paths per group unless configured otherwise.
pub const M4B_GROUP_CHUNK_DEFAULT: usize = 24;

/// Name of the setting that bounds the paths per group.
pub const PCS_MMCS_GROUP_CHUNK_ENV: &'static str = "WQC_PCS_MMCS_GROUP_CHUNK";

pub const M4B_PATH_IDX_BITS: usize = 7;

pub const M4B_PATH_IDX_COL: usize = 1612;

pub const M4B_GROUP_WIDTH: usize = 1619;

/// What `str::trim` leaves of a text with characters beyond ASCII.
pub uninterp spec fn trimmed(s: Seq<char>) -> Seq<char>;

/// All characters are ASCII.
pub open spec fn all_ascii(s: Seq<char>) -> bool {
    forall|i: int| 0 <= i < s.len() ==> ((#[trigger] s[i]) as u32) < 0x80
}

/// An ASCII character that counts as whitespace: a space, or one from tab to carriage return.
pub open spec fn ascii_space(c: char) -> bool {
    c == ' ' || 9 <= (c as u32) <= 13
}

/// An ASCII text without the whitespace at its ends.
pub open spec fn ascii_trimmed(s: Seq<char>) -> Seq<char>
    decreases s.len(),
{
    if s.len() > 0 && ascii_space(s[0]) {
        ascii_trimmed(s.skip(1))
    } else if s.len() > 0 && ascii_space(s.last()) {
        ascii_trimmed(s.drop_last())
    } else {
        s
    }
}

/// A text without the whitespace at its ends.
pub open spec fn text_trimmed(s: Seq<char>) -> Seq<char> {
    if all_ascii(s) {
        ascii_trimmed(s)
    } else {
        trimmed(s)
    }
}

/// The number that decimal digits spell.
pub open spec fn decimal(d: Seq<char>) -> int
    decreases d.len(),
{
    if d.len() == 0 {
        0
    } else {
        10 * decimal(d.drop_last()) + (d.last() as int - '0' as int)
    }
}

/// The digits of a text, after a plus sign where it starts with one.
pub open spec fn after_plus(s: Seq<char>) -> Seq<char> {
    if s.len() > 0 && s[0] == '+' {
        s.skip(1)
    } else {
        s
    }
}

/// The number that a text spells: an optional plus sign and at least one decimal digit, nothing
/// else, and no more than a `usize` holds.
pub open spec fn parsed_usize(s: Seq<char>) -> Option<usize> {
    let d = after_plus(s);
    if d.len() > 0 && (forall|i: int| 0 <= i < d.len() ==> '0' <= #[trigger] d[i] <= '9') && decimal(
        d,
    ) <= usize::MAX {
        Some(decimal(d) as usize)
    } else {
        None
    }
}

/// `str::trim`: the text without leading and trailing whitespace. What an ASCII text leaves is
/// stated; of another text, which characters are whitespace is for Unicode to say, and the
/// result is named `trimmed`.
#[verifier::external_body]
fn trim_text(s: &str) -> (r: &str)
    ensures
        r@ == (if all_ascii(s@) {
            ascii_trimmed(s@)
        } else {
            trimmed(s@)
        }),
{
    s.trim()
}

/// `str::parse::<usize>`: the number a text spells. A sign other than plus, whitespace, an
/// underscore, an empty text or a number out of range is an error.
#[verifier::external_body]
fn parse_text(s: &str) -> (r: Option<usize>)
    ensures
        r == parsed_usize(s@),
{
    s.parse::<usize>().ok()
}

/// The group size that a parsed setting asks for: at least one, at most the maximum.
pub open spec fn chunk_of(n: Option<usize>) -> Option<usize> {
    match n {
        Some(k) if k >= 1 => Some(
            if k < M4B_MAX_PATHS {
                k
            } else {
                M4B_MAX_PATHS
            },
        ),
        _ => None,
    }
}

/// Bounds a parsed setting.
pub fn bound_chunk(n: Option<usize>) -> (r: Option<usize>)
    ensures
        r == chunk_of(n),
{
    match n {
        Some(k) => if k == 0 {
            None
        } else if k < M4B_MAX_PATHS {
            Some(k)
        } else {
            Some(M4B_MAX_PATHS)
        },
        None => None,
    }
}

/// The group size that a setting's text asks for.
pub open spec fn chunk_setting(text: Option<Seq<char>>) -> usize {
    match text {
        Some(t) => match chunk_of(parsed_usize(text_trimmed(t))) {
            Some(k) => k,
            None => M4B_GROUP_CHUNK_DEFAULT,
        },
        None => M4B_GROUP_CHUNK_DEFAULT,
    }
}

/// The text a setting holds.
pub open spec fn opt_text(t: Option<&str>) -> Option<Seq<char>> {
    match t {
        Some(s) => Some(s@),
        None => None,
    }
}

/// The group size of the setting `text`, ignoring any session override.
pub fn m4b_group_chunk_from_env(text: Option<&str>) -> (r: usize)
    ensures
        r == chunk_setting(opt_text(text)),
        1 <= r <= M4B_MAX_PATHS,
{
    let parsed: Option<usize> = match text {
        Some(s) => bound_chunk(parse_text(trim_text(s))),
        None => None,
    };
    match parsed {
        Some(k) => k,
        None => M4B_GROUP_CHUNK_DEFAULT,
    }
}

/// The group size in force: the session override where one is set, else the setting.
pub fn m4b_group_chunk(session: Option<usize>, text: Option<&str>) -> (r: usize)
    ensures
        r == (match session {
            Some(k) => k,
            None => chunk_setting(opt_text(text)),
        }),
{
    match session {
        Some(k) => k,
        None => m4b_group_chunk_from_env(text),
    }
}

/// Remembers the session override that was in force before it was replaced.
#[derive(Debug)]
pub struct M4bChunkGuard {
    pub prev: Option<usize>,
}

impl M4bChunkGuard {
    /// Sets the session override, brought into range, and remembers the one before.
    pub fn set(slot: &mut Option<usize>, chunk: usize) -> (r: Self)
        ensures
            r.prev == *old(slot),
            *final(slot) == Some(
                if chunk < 1 {
                    1usize
                } else if chunk > M4B_MAX_PATHS {
                    M4B_MAX_PATHS
                } else {
                    chunk
                },
            ),
    {
        let bounded: usize = if chunk < 1 {
            1
        } else if chunk > M4B_MAX_PATHS {
            M4B_MAX_PATHS
        } else {
            chunk
        };
        let prev: Option<usize> = *slot;
        *slot = Some(bounded);
        M4bChunkGuard { prev }
    }

    /// Puts the remembered override back.
    pub fn restore(self, slot: &mut Option<usize>)
        ensures
            *final(slot) == self.prev,
    {
        *slot = self.prev;
    }
}

/// One opening to prove: a row, its path and the root.
#[derive(Debug, Clone)]
pub struct MmcsPathStatement {
    pub row: Vec<Val>,
    pub siblings: Vec<[u8; 32]>,
    pub index: usize,
    pub root: [u8; 32],
}

/// All paths of a group as one proof.
#[derive(Debug, Clone, PartialEq, Eq)]
pub struct KeccakGroupFoldProof {
    pub path_count: u32,
    pub depth: u32,
    pub leaf_width: u32,
    pub group_stark: Vec<u8>,
}

/// The system for a group of paths of one shape.
#[derive(Copy, Clone, Debug)]
pub struct MmcsGroupPathAir {
    pub leaf_msg_len: usize,
    pub depth: usize,
    pub path_count: usize,
}

/// Public values per path.
pub fn m4b_path_stride(leaf_msg_len: usize) -> (r: usize)
    requires
        leaf_msg_len + 1365 <= usize::MAX,
    ensures
        r == leaf_msg_len + 1365,
{
    leaf_msg_len + 65 + FRI_MMCS_MAX_DEPTH + FRI_MMCS_MAX_DEPTH * 64
}

/// Public values of a group: the path count, the depth, then each path.
pub fn m4b_num_public(leaf_msg_len: usize, path_count: usize) -> (r: usize)
    requires
        2 + path_count * (leaf_msg_len + 1365) <= usize::MAX,
        leaf_msg_len + 1365 <= usize::MAX,
    ensures
        r == 2 + path_count * (leaf_msg_len + 1365),
{
    2 + path_count * m4b_path_stride(leaf_msg_len)
}

/// Where the parts of path `p` start.
pub open spec fn m4b_offsets_spec(p: int, len: int) -> PathOffsets {
    let base = 2 + p * (len + 1365);
    PathOffsets {
        msg: base as usize,
        leaf_digest: (base + len) as usize,
        root: (base + len + 32) as usize,
        index: (base + len + 64) as usize,
        index_bits: (base + len + 65) as usize,
        siblings: (base + len + 85) as usize,
        layers: (base + len + 725) as usize,
    }
}

fn m4b_offsets(p: usize, len: usize, count: usize) -> (r: PathOffsets)
    requires
        p < count <= M4B_MAX_PATHS,
        len <= 272,
    ensures
        r == m4b_offsets_spec(p as int, len as int),
        offsets_fit(r, len as int, 2 + count * (len + 1365)),
{
    proof {
        assert(p * (len + 1365) + (len + 1365) <= count * (len + 1365)) by (nonlinear_arith)
            requires
                p + 1 <= count,
        ;
        assert(p * (len + 1365) <= 128 * 1637) by (nonlinear_arith)
            requires
                p <= 128,
                len <= 272,
        ;
    }
    let base: usize = 2 + p * (len + 1365);
    PathOffsets {
        msg: base,
        leaf_digest: base + len,
        root: base + len + 32,
        index: base + len + 64,
        index_bits: base + len + 65,
        siblings: base + len + 85,
        layers: base + len + 725,
    }
}

impl MmcsGroupPathAir {
    pub fn width(&self) -> (r: usize)
        ensures
            r == M4B_GROUP_WIDTH,
    {
        M4B_GROUP_WIDTH
    }

    pub fn max_constraint_degree(&self) -> (r: Option<usize>)
        ensures
            r == None::<usize>,
    {
        None
    }

    pub fn num_public_values(&self) -> (r: usize)
        requires
            2 + self.path_count * (self.leaf_msg_len + 1365) <= usize::MAX,
            self.leaf_msg_len + 1365 <= usize::MAX,
        ensures
            r == 2 + self.path_count * (self.leaf_msg_len + 1365),
    {
        m4b_num_public(self.leaf_msg_len, self.path_count)
    }

    /// One within a segment of one path.
    pub open spec fn same_meta(w: WindowVals) -> int {
        let v = segment_vals(w);
        same_bits_upto(
            same_bits_upto(fsub(1, w.next[1606]), v.seg_c, v.seg_n, 5),
            w.curr.subrange(1612, 1619),
            w.next.subrange(1612, 1619),
            7,
        )
    }

    /// The selectors of the segments of path `p`.
    pub open spec fn selectors(self, w: WindowVals, p: int) -> PathSelectorVals {
        let v = segment_vals(w);
        let same = Self::same_meta(w);
        let sel = eq_bits(w.curr.subrange(1612, 1619), p);
        PathSelectorVals {
            leaf_start: fmul(fmul(v.seg_start, eq_bits(v.seg_c, 0)), sel),
            second_block: fmul(
                fmul(fmul(fmul(fmul(w.trans, v.both_live), v.wrap), same), eq_bits(v.seg_c, 0)),
                sel,
            ),
            layer_start: Seq::new(
                self.depth as nat,
                |l: int| fmul(fmul(v.seg_start, eq_bits(v.seg_c, l + 1)), sel),
            ),
            leaf_idle: fmul(fmul(v.idle, eq_bits(v.seg_c, 0)), sel),
            layer_idle: Seq::new(
                self.depth as nat,
                |l: int| fmul(fmul(v.idle, eq_bits(v.seg_c, l + 1)), sel),
            ),
        }
    }

    /// The constraints of path `p`.
    pub open spec fn path_block(self, w: WindowVals, p: int) -> Seq<int> {
        let off = m4b_offsets_spec(p, self.leaf_msg_len as int);
        path_constraints(
            segment_vals(w).cells,
            w.pv,
            off,
            self.leaf_msg_len as int,
            self.depth as nat,
            self.selectors(w, p),
        ) + index_constraints(w.pv, off, self.depth as int)
    }

    /// The path counter moves by one exactly where a new leaf segment starts.
    pub open spec fn counter_constraints(w: WindowVals) -> Seq<int> {
        let path_c = bits_value(w.curr.subrange(1612, 1619));
        let path_n = bits_value(w.next.subrange(1612, 1619));
        let new_path = fmul(w.next[1606], eq_bits(w.next.subrange(1607, 1612), 0));
        seq![
            fmul(fmul(w.trans, fsub(1, new_path)), fsub(path_n, path_c)),
            fmul(fmul(w.trans, new_path), fsub(fsub(path_n, path_c), 1)),
        ]
    }

    /// The values the system emits on a window.
    pub open spec fn constraints(self, w: WindowVals) -> Seq<int> {
        let same = Self::same_meta(w);
        segment_constraints(w, same) + hold_constraints(
            w.curr.subrange(1612, 1619),
            w.next.subrange(1612, 1619),
            fmul(w.trans, same),
        ) + Self::counter_constraints(w) + seq![
            fsub(w.pv[0], self.path_count as int),
            fsub(w.pv[1], self.depth as int),
        ] + flat(self.path_count as nat, |p: int| self.path_block(w, p)) + seq![
            fmul(w.first, fsub(w.curr[1606], 1)),
        ] + zero_constraints(w.curr.subrange(1607, 1612), w.first) + zero_constraints(
            w.curr.subrange(1612, 1619),
            w.first,
        )
    }

    fn path_selectors<S: ConstraintSink>(
        &self,
        w: &Window<S::E>,
        p: usize,
        at_segment: &Vec<S::E>,
        seg_start: &S::E,
        idle: &S::E,
        second: &S::E,
    ) -> (r: PathSelectors<S::E>)
        requires
            w.curr@.len() == M4B_GROUP_WIDTH,
            w.next@.len() == M4B_GROUP_WIDTH,
            self.depth <= 20,
            p < 128,
            at_segment@.len() == self.depth + 1,
            forall|k: int|
                0 <= k <= self.depth ==> #[trigger] at_segment@[k].val() == eq_bits(
                    segment_vals(w@).seg_c,
                    k,
                ),
            seg_start.val() == segment_vals(w@).seg_start,
            idle.val() == segment_vals(w@).idle,
            second.val() == fmul(
                fmul(
                    fmul(
                        fmul(w@.trans, segment_vals(w@).both_live),
                        segment_vals(w@).wrap,
                    ),
                    Self::same_meta(w@),
                ),
                eq_bits(segment_vals(w@).seg_c, 0),
            ),
        ensures
            r@ == self.selectors(w@, p as int),
            r.layer_start@.len() == self.depth,
            r.layer_idle@.len() == self.depth,
    {
        let path_c = vstd::slice::slice_subrange(
            w.curr.as_slice(),
            M4B_PATH_IDX_COL,
            M4B_GROUP_WIDTH,
        );
        proof {
            assert(evals(path_c@) =~= w@.curr.subrange(1612, 1619));
        }
        let ghost v = segment_vals(w@);
        let sel = eq_bits_const(path_c, p as u32);
        let mut layer_start: Vec<S::E> = Vec::new();
        let mut layer_idle: Vec<S::E> = Vec::new();
        let mut l: usize = 0;
        while l < self.depth
            invariant
                l <= self.depth,
                self.depth <= 20,
                v == segment_vals(w@),
                at_segment@.len() == self.depth + 1,
                forall|k: int|
                    0 <= k <= self.depth ==> #[trigger] at_segment@[k].val() == eq_bits(v.seg_c, k),
                seg_start.val() == v.seg_start,
                idle.val() == v.idle,
                layer_start@.len() == l,
                layer_idle@.len() == l,
                forall|k: int|
                    0 <= k < l ==> #[trigger] layer_start@[k].val() == fmul(
                        fmul(v.seg_start, eq_bits(v.seg_c, k + 1)),
                        sel.val(),
                    ),
                forall|k: int|
                    0 <= k < l ==> #[trigger] layer_idle@[k].val() == fmul(
                        fmul(v.idle, eq_bits(v.seg_c, k + 1)),
                        sel.val(),
                    ),
            decreases self.depth - l,
        {
            layer_start.push(seg_start.times(&at_segment[l + 1]).times(&sel));
            layer_idle.push(idle.times(&at_segment[l + 1]).times(&sel));
            l += 1;
        }
        let r = PathSelectors {
            leaf_start: seg_start.times(&at_segment[0]).times(&sel),
            second_block: second.times(&sel),
            layer_start,
            leaf_idle: idle.times(&at_segment[0]).times(&sel),
            layer_idle,
        };
        proof {
            assert(r@ =~= self.selectors(w@, p as int));
        }
        r
    }

    /// Emits the system's constraints: segments run the sponge, a counter names the path, and
    /// for each path the single-path constraints hold where the counter selects it.
    pub fn eval<S: ConstraintSink>(&self, sink: &mut S, w: &Window<S::E>)
        requires
            w.curr@.len() == M4B_GROUP_WIDTH,
            w.next@.len() == M4B_GROUP_WIDTH,
            self.leaf_msg_len <= 272,
            0 < self.depth <= FRI_MMCS_MAX_DEPTH,
            self.path_count <= M4B_MAX_PATHS,
            w.pv@.len() == 2 + self.path_count * (self.leaf_msg_len + 1365),
        ensures
            final(sink).emitted() == old(sink).emitted() + self.constraints(w@),
    {
        let ghost e0 = sink.emitted();
        let one = <S::E as Expr>::lit(1);
        let curr = w.curr.as_slice();
        let next = w.next.as_slice();
        let pv = w.pv.as_slice();
        let state_c = vstd::slice::slice_subrange(curr, 0, KECCAK_STATE_BITS);
        let state_n = vstd::slice::slice_subrange(next, 0, KECCAK_STATE_BITS);
        let seg_c = vstd::slice::slice_subrange(curr, M4A_SEG_IDX_COL, M4A_PATH_WIDTH);
        let seg_n = vstd::slice::slice_subrange(next, M4A_SEG_IDX_COL, M4A_PATH_WIDTH);
        let path_c = vstd::slice::slice_subrange(curr, M4B_PATH_IDX_COL, M4B_GROUP_WIDTH);
        let path_n = vstd::slice::slice_subrange(next, M4B_PATH_IDX_COL, M4B_GROUP_WIDTH);
        let ghost v = segment_vals(w@);
        proof {
            assert(evals(state_c@) =~= v.cells.state_c);
            assert(evals(state_n@) =~= v.cells.state_n);
            assert(evals(seg_c@) =~= v.seg_c);
            assert(evals(seg_n@) =~= v.seg_n);
            assert(evals(path_c@) =~= w@.curr.subrange(1612, 1619));
            assert(evals(path_n@) =~= w@.next.subrange(1612, 1619));
        }
        let same_seg = same_bits_expr(one.minus(&next[M4A_SEG_START_COL]), seg_c, seg_n);
        let same = same_bits_expr(same_seg, path_c, path_n);
        let x = constrain_segment(sink, w, &same);
        let path_en = w.trans.times(&same);
        constrain_hold(sink, path_c, path_n, &path_en);
        let path_val_c = bits_value_expr(path_c);
        let path_val_n = bits_value_expr(path_n);
        let new_path = next[M4A_SEG_START_COL].times(&eq_bits_const(seg_n, 0));
        let moved = path_val_n.minus(&path_val_c);
        sink.assert_zero(w.trans.times(&one.minus(&new_path)).times(&moved));
        sink.assert_zero(w.trans.times(&new_path).times(&moved.minus(&one)));
        let count = <S::E as Expr>::lit(self.path_count as u32);
        let d = <S::E as Expr>::lit(self.depth as u32);
        let n: usize = pv.len();
        proof {
            assert(0 <= self.path_count * (self.leaf_msg_len + 1365)) by (nonlinear_arith)
                requires
                    0 <= self.path_count,
                    0 <= self.leaf_msg_len,
            ;
        }
        sink.assert_zero(pv[0].minus(&count));
        sink.assert_zero(pv[1].minus(&d));
        let ghost e1 = sink.emitted();
        proof {
            assert(e1 =~= e0 + segment_constraints(w@, Self::same_meta(w@)) + hold_constraints(
                w@.curr.subrange(1612, 1619),
                w@.next.subrange(1612, 1619),
                fmul(w@.trans, Self::same_meta(w@)),
            ) + Self::counter_constraints(w@) + seq![
                fsub(w@.pv[0], self.path_count as int),
                fsub(w@.pv[1], self.depth as int),
            ]);
        }
        let seg_start = curr[M4A_SEG_START_COL].dup();
        let mut at_segment: Vec<S::E> = Vec::new();
        let mut k: usize = 0;
        while k < self.depth + 1
            invariant
                k <= self.depth + 1,
                self.depth <= 20,
                evals(seg_c@) == v.seg_c,
                at_segment@.len() == k,
                forall|j: int|
                    0 <= j < k ==> #[trigger] at_segment@[j].val() == eq_bits(v.seg_c, j),
            decreases self.depth + 1 - k,
        {
            at_segment.push(eq_bits_const(seg_c, k as u32));
            k += 1;
        }
        let second = w.trans.times(&x.both_live).times(&x.wrap).times(&same).times(&at_segment[0]);
        let cells = SpongeCells {
            state_c,
            state_n,
            rc: x.rc.as_slice(),
            expected: x.expected.as_slice(),
            live: &x.live,
            round_c: &x.round_c,
            round_n: &x.round_n,
        };
        proof {
            assert(cells@ =~= v.cells);
        }
        let ghost f = |p: int| self.path_block(w@, p);
        let mut p: usize = 0;
        while p < self.path_count
            invariant
                p <= self.path_count,
                w.curr@.len() == M4B_GROUP_WIDTH,
                w.next@.len() == M4B_GROUP_WIDTH,
                self.leaf_msg_len <= 272,
                0 < self.depth <= FRI_MMCS_MAX_DEPTH,
                self.path_count <= M4B_MAX_PATHS,
                n == pv@.len(),
                pv@ == w.pv@,
                n == 2 + self.path_count * (self.leaf_msg_len + 1365),
                v == segment_vals(w@),
                cells@ == v.cells,
                cells.state_c@.len() == 1600,
                cells.state_n@.len() == 1600,
                cells.expected@.len() == 1600,
                evals(cells.expected@) == round_cells(
                    evals(cells.state_c@),
                    evals(cells.rc@),
                ),
                at_segment@.len() == self.depth + 1,
                forall|j: int|
                    0 <= j <= self.depth ==> #[trigger] at_segment@[j].val() == eq_bits(v.seg_c, j),
                seg_start.val() == v.seg_start,
                x.idle.val() == v.idle,
                second.val() == fmul(
                    fmul(
                        fmul(fmul(w@.trans, v.both_live), v.wrap),
                        Self::same_meta(w@),
                    ),
                    eq_bits(v.seg_c, 0),
                ),
                f == (|p: int| self.path_block(w@, p)),
                sink.emitted() == e1 + flat(p as nat, f),
            decreases self.path_count - p,
        {
            let sel = self.path_selectors::<S>(w, p, &at_segment, &seg_start, &x.idle, &second);
            let off = m4b_offsets(p, self.leaf_msg_len, self.path_count);
            let ghost before = sink.emitted();
            constrain_path(sink, &cells, pv, off, self.leaf_msg_len, self.depth, &sel);
            constrain_index(sink, pv, off, self.depth);
            proof {
                assert(f(p as int) == self.path_block(w@, p as int));
                assert(sink.emitted() =~= before + f(p as int));
                assert(flat((p + 1) as nat, f) =~= flat(p as nat, f) + f(p as int));
                assert(sink.emitted() =~= e1 + flat((p + 1) as nat, f));
            }
            p += 1;
        }
        sink.assert_zero(w.first.times(&curr[M4A_SEG_START_COL].minus(&one)));
        constrain_zero(sink, seg_c, &w.first);
        constrain_zero(sink, path_c, &w.first);
        proof {
            assert(sink.emitted() =~= e0 + self.constraints(w@));
        }
    }
}

/// The root of a statement's path.
pub open spec fn stmt_root(s: MmcsPathStatement) -> Seq<u8> {
    path_root(keccak_pair(), keccak_leaf(vals(s.row@)), s.siblings@, s.index as int)
}

/// The public values of one path: message, leaf digest, root, index, index bits, siblings and
/// level digests, the lists filled up to twenty entries.
pub open spec fn stmt_publics(s: MmcsPathStatement) -> Seq<int> {
    let row = vals(s.row@);
    let leaf = keccak_leaf(row);
    let index = s.index as u32;
    byte_vals(row_bytes(row)) + byte_vals(leaf) + byte_vals(s.root@) + seq![
        index as int % (P as int),
    ] + index_bit_vals(index as int, s.siblings@.len() as int) + padded_digest_vals(s.siblings@)
        + padded_layer_vals(leaf, s.siblings@, s.index as int)
}

/// The public values of a group.
pub open spec fn group_publics(stmts: Seq<MmcsPathStatement>, depth: int) -> Seq<int> {
    seq![stmts.len() as int, depth] + flat(stmts.len(), |p: int| stmt_publics(stmts[p]))
}

/// The rows of one path of a group.
pub open spec fn stmt_rows(s: MmcsPathStatement, p: int) -> Seq<Seq<int>> {
    let row = vals(s.row@);
    path_rows(
        row_bytes(row),
        layer_msgs(keccak_leaf(row), s.siblings@, s.index as int),
        s.siblings@.len(),
        number_bits(p, 7),
    )
}

/// The rows of the first `n` paths.
pub open spec fn group_rows(stmts: Seq<MmcsPathStatement>, n: nat) -> Seq<Seq<int>>
    decreases n,
{
    if n == 0 {
        Seq::empty()
    } else {
        group_rows(stmts, (n - 1) as nat) + stmt_rows(stmts[n - 1], n - 1)
    }
}

/// Why no group proof was made.
#[derive(Debug, Clone, PartialEq, Eq)]
pub enum GroupFoldError {
    /// No path, or more than [`M4B_MAX_PATHS`].
    PathCount,
    /// No siblings, or more than [`FRI_MMCS_MAX_DEPTH`].
    Depth,
    /// This path is not as deep as the first.
    InhomogeneousDepth(usize),
    /// This path's row is not as wide as the first.
    InhomogeneousWidth(usize),
    /// The rows do not serialize to messages of one or two permutations.
    LeafLen,
    /// A path does not lead to its root.
    RootMismatch,
    /// The proof system reported an error.
    Backend(String),
}

/// What is wrong with path `p`, if anything.
pub open spec fn stmt_report(stmts: Seq<MmcsPathStatement>, p: int) -> Option<GroupFoldError> {
    let s = stmts[p];
    if s.siblings@.len() != stmts[0].siblings@.len() {
        Some(GroupFoldError::InhomogeneousDepth(p as usize))
    } else if s.row@.len() != stmts[0].row@.len() {
        Some(GroupFoldError::InhomogeneousWidth(p as usize))
    } else if !path_leaf_ok(s.row@.len() as int) {
        Some(GroupFoldError::LeafLen)
    } else if stmt_root(s) != s.root@ {
        Some(GroupFoldError::RootMismatch)
    } else {
        None
    }
}

/// What is wrong with a group, if anything.
pub open spec fn group_report(stmts: Seq<MmcsPathStatement>) -> Option<GroupFoldError> {
    if stmts.len() == 0 || stmts.len() > M4B_MAX_PATHS {
        Some(GroupFoldError::PathCount)
    } else if stmts[0].siblings@.len() == 0 || stmts[0].siblings@.len() > FRI_MMCS_MAX_DEPTH {
        Some(GroupFoldError::Depth)
    } else {
        first_some(stmts.len(), |p: int| stmt_report(stmts, p))
    }
}

/// A path's root, message list and public values.
fn push_statement(pv: &mut Vec<Val>, s: &MmcsPathStatement) -> (r: (bool, Vec<[u8; 64]>))
    requires
        0 < s.siblings@.len() <= 20,
    ensures
        vals(final(pv)@) == vals(old(pv)@) + stmt_publics(*s),
        r.0 == (stmt_root(*s) == s.root@),
        4 * s.row@.len() <= usize::MAX,
        msg_views(r.1@) == layer_msgs(
            keccak_leaf(vals(s.row@)),
            s.siblings@,
            s.index as int,
        ),
{
    let ghost base = vals(pv@);
    let leaf_msg = val_row_to_bytes(s.row.as_slice());
    let _len: usize = leaf_msg.len();
    let leaf = keccak256_val_leaf(s.row.as_slice());
    let depth: usize = s.siblings.len();
    let (layers, msgs) = fold_path_keccak(leaf, s.siblings.as_slice(), s.index);
    let ok: bool = same_digest(&layers[depth - 1], &s.root);
    push_bytes(pv, leaf_msg.as_slice());
    push_bytes(pv, vstd::array::array_as_slice(&leaf));
    push_bytes(pv, vstd::array::array_as_slice(&s.root));
    push_val(pv, Val::from_u32(s.index as u32));
    push_index_bits(pv, s.index as u32, depth);
    push_padded_digests(pv, s.siblings.as_slice());
    push_padded_digests(pv, layers.as_slice());
    proof {
        lemma_padded_layers(layers@, leaf@, s.siblings@, s.index as int);
        assert(vals(pv@) =~= base + stmt_publics(*s));
    }
    (ok, msgs)
}

/// `reply` is what the prover answered for this group.
pub open spec fn group_prover_reply<
    F: Fn(&MmcsGroupPathAir, &RowMajorMatrix, &[Val]) -> Result<Vec<u8>, String>,
>(prover: F, stmts: Seq<MmcsPathStatement>, reply: Result<Vec<u8>, String>) -> bool {
    exists|a: &MmcsGroupPathAir, m: &RowMajorMatrix, p: &[Val]|
        {
            &&& #[trigger] call_ensures(prover, (a, m, p), reply)
            &&& a.leaf_msg_len == 4 * stmts[0].row@.len()
            &&& a.depth == stmts[0].siblings@.len()
            &&& a.path_count == stmts.len()
            &&& m.width == M4B_GROUP_WIDTH
            &&& rows_are(*m, group_rows(stmts, stmts.len()))
            &&& vals(p@) == group_publics(stmts, stmts[0].siblings@.len() as int)
        }
}

/// What proving a group of paths may return.
pub open spec fn group_fold_outcome<
    F: Fn(&MmcsGroupPathAir, &RowMajorMatrix, &[Val]) -> Result<Vec<u8>, String>,
>(prover: F, stmts: Seq<MmcsPathStatement>, r: Result<KeccakGroupFoldProof, GroupFoldError>) -> bool {
    match group_report(stmts) {
        Some(e) => r == Err::<KeccakGroupFoldProof, GroupFoldError>(e),
        None => match r {
            Ok(p) => {
                &&& p.path_count == stmts.len()
                &&& p.depth == stmts[0].siblings@.len()
                &&& p.leaf_width == stmts[0].row@.len()
                &&& group_prover_reply(prover, stmts, Ok(p.group_stark))
            },
            Err(GroupFoldError::Backend(e)) => group_prover_reply(prover, stmts, Err(e)),
            _ => false,
        },
    }
}

/// Proves a group of paths of one shape with the given proof system.
pub fn generate_keccak_group_fold_proof<
    F: Fn(&MmcsGroupPathAir, &RowMajorMatrix, &[Val]) -> Result<Vec<u8>, String>,
>(statements: &[MmcsPathStatement], prover: &F) -> (r: Result<KeccakGroupFoldProof, GroupFoldError>)
    requires
        forall|a: &MmcsGroupPathAir, m: &RowMajorMatrix, p: &[Val]|
            call_requires(*prover, (a, m, p)),
    ensures
        group_fold_outcome(*prover, statements@, r),
{
    let path_count: usize = statements.len();
    if path_count == 0 || path_count > M4B_MAX_PATHS {
        return Err(GroupFoldError::PathCount);
    }
    let depth: usize = statements[0].siblings.len();
    let leaf_width: usize = statements[0].row.len();
    if depth == 0 || depth > FRI_MMCS_MAX_DEPTH {
        return Err(GroupFoldError::Depth);
    }
    let ghost f = |p: int| stmt_report(statements@, p);
    let ghost g = |p: int| stmt_publics(statements@[p]);
    let mut pv: Vec<Val> = Vec::new();
    push_val(&mut pv, Val::from_u32(path_count as u32));
    push_val(&mut pv, Val::from_u32(depth as u32));
    let mut matrix = RowMajorMatrix { values: Vec::new(), width: M4B_GROUP_WIDTH };
    proof {
        let head = seq![path_count as int, depth as int];
        assert(vals(pv@) =~= head + flat(0, g));
    }
    let mut p: usize = 0;
    while p < path_count
        invariant
            p <= path_count,
            path_count == statements@.len(),
            0 < path_count <= M4B_MAX_PATHS,
            0 < depth <= FRI_MMCS_MAX_DEPTH,
            depth == statements@[0].siblings@.len(),
            leaf_width == statements@[0].row@.len(),
            f == (|p: int| stmt_report(statements@, p)),
            g == (|p: int| stmt_publics(statements@[p])),
            first_some(p as nat, f) is None,
            group_report(statements@) == first_some(statements@.len(), f),
            p > 0 ==> path_leaf_ok(leaf_width as int),
            vals(pv@) == seq![path_count as int, depth as int] + flat(p as nat, g),
            matrix.width == M4B_GROUP_WIDTH,
            rows_are(matrix, group_rows(statements@, p as nat)),
        decreases path_count - p,
    {
        let stmt = &statements[p];
        proof {
            assert(first_some((p + 1) as nat, f) == f(p as int));
            if f(p as int) is Some {
                lemma_first_some_stops((p + 1) as nat, statements@.len(), f);
            }
        }
        if stmt.siblings.len() != depth {
            return Err(GroupFoldError::InhomogeneousDepth(p));
        }
        if stmt.row.len() != leaf_width {
            return Err(GroupFoldError::InhomogeneousWidth(p));
        }
        if leaf_width < 3 || leaf_width >= KECCAK_RATE / 2 {
            return Err(GroupFoldError::LeafLen);
        }
        let (ok, msgs) = push_statement(&mut pv, stmt);
        if !ok {
            return Err(GroupFoldError::RootMismatch);
        }
        proof {
            assert(g(p as int) == stmt_publics(statements@[p as int]));
            assert(flat((p + 1) as nat, g) =~= flat(p as nat, g) + g(p as int));
            assert(vals(pv@) =~= seq![path_count as int, depth as int] + flat((p + 1) as nat, g));
        }
        let leaf_msg = val_row_to_bytes(stmt.row.as_slice());
        let tail = low_bits(p, M4B_PATH_IDX_BITS);
        append_path(
            &mut matrix,
            leaf_msg.as_slice(),
            &msgs,
            &tail,
            Ghost(group_rows(statements@, p as nat)),
        );
        proof {
            let tv = Seq::new(tail@.len(), |k: int| fbool(tail@[k]));
            assert(tv =~= number_bits(p as int, 7));
            assert(msgs@.len() == msg_views(msgs@).len());
        }
        p += 1;
    }
    let air = MmcsGroupPathAir { leaf_msg_len: 4 * leaf_width, depth, path_count };
    let publics: &[Val] = pv.as_slice();
    let reply = prover(&air, &matrix, publics);
    proof {
        assert(call_ensures(*prover, (&air, &matrix, publics), reply));
        assert(vals(publics@) == group_publics(statements@, depth as int));
        assert(group_prover_reply(*prover, statements@, reply));
    }
    match reply {
        Ok(group_stark) => Ok(
            KeccakGroupFoldProof {
                path_count: path_count as u32,
                depth: depth as u32,
                leaf_width: leaf_width as u32,
                group_stark,
            },
        ),
        Err(e) => Err(GroupFoldError::Backend(e)),
    }
}

/// A group proof's shape is that of the statements, and every path leads to its root.
pub open spec fn group_shape(stmts: Seq<MmcsPathStatement>, p: KeccakGroupFoldProof) -> bool {
    &&& stmts.len() == p.path_count
    &&& 0 < p.path_count <= M4B_MAX_PATHS
    &&& 0 < p.depth <= FRI_MMCS_MAX_DEPTH
    &&& forall|i: int| 0 <= i < stmts.len() ==> stmt_fits(#[trigger] stmts[i], p)
}

/// One statement fits a group proof.
pub open spec fn stmt_fits(s: MmcsPathStatement, p: KeccakGroupFoldProof) -> bool {
    &&& s.row@.len() == p.leaf_width
    &&& s.siblings@.len() == p.depth
    &&& stmt_root(s) == s.root@
}

/// The verifier's verdict on a group proof for these statements.
pub open spec fn group_verdict<V: Fn(&MmcsGroupPathAir, &[Val], &[u8]) -> bool>(
    verifier: V,
    stmts: Seq<MmcsPathStatement>,
    p: KeccakGroupFoldProof,
    r: bool,
) -> bool {
    exists|a: &MmcsGroupPathAir, v: &[Val], b: &[u8]|
        {
            &&& #[trigger] call_ensures(verifier, (a, v, b), r)
            &&& a.leaf_msg_len == 4 * stmts[0].row@.len()
            &&& a.depth == p.depth
            &&& a.path_count == p.path_count
            &&& vals(v@) == group_publics(stmts, p.depth as int)
            &&& b@ == p.group_stark@
        }
}

/// The outcome of checking a group proof.
pub open spec fn group_verify_outcome<V: Fn(&MmcsGroupPathAir, &[Val], &[u8]) -> bool>(
    verifier: V,
    stmts: Seq<MmcsPathStatement>,
    p: KeccakGroupFoldProof,
    r: bool,
) -> bool {
    if group_shape(stmts, p) {
        group_verdict(verifier, stmts, p, r)
    } else {
        !r
    }
}

/// Checks a group proof: shapes and roots natively, its bytes with the given verifier.
pub fn verify_keccak_group_fold_proof<V: Fn(&MmcsGroupPathAir, &[Val], &[u8]) -> bool>(
    statements: &[MmcsPathStatement],
    proof: &KeccakGroupFoldProof,
    verifier: &V,
) -> (r: bool)
    requires
        forall|a: &MmcsGroupPathAir, p: &[Val], b: &[u8]| call_requires(*verifier, (a, p, b)),
    ensures
        group_verify_outcome(*verifier, statements@, *proof, r),
{
    let path_count: usize = proof.path_count as usize;
    let depth: usize = proof.depth as usize;
    if statements.len() != path_count || path_count == 0 || path_count > M4B_MAX_PATHS || depth == 0
        || depth > FRI_MMCS_MAX_DEPTH {
        return false;
    }
    let leaf_width: usize = proof.leaf_width as usize;
    let ghost g = |p: int| stmt_publics(statements@[p]);
    let mut pv: Vec<Val> = Vec::new();
    push_val(&mut pv, Val::from_u32(path_count as u32));
    push_val(&mut pv, Val::from_u32(depth as u32));
    proof {
        let head = seq![path_count as int, depth as int];
        assert(vals(pv@) =~= head + flat(0, g));
    }
    let mut p: usize = 0;
    while p < path_count
        invariant
            p <= path_count,
            path_count == statements@.len(),
            path_count == proof.path_count,
            depth == proof.depth,
            leaf_width == proof.leaf_width,
            0 < depth <= FRI_MMCS_MAX_DEPTH,
            g == (|p: int| stmt_publics(statements@[p])),
            forall|i: int| 0 <= i < p ==> stmt_fits(#[trigger] statements@[i], *proof),
            p > 0 ==> 4 * statements@[0].row@.len() <= usize::MAX,
            vals(pv@) == seq![path_count as int, depth as int] + flat(p as nat, g),
        decreases path_count - p,
    {
        let stmt = &statements[p];
        if stmt.row.len() != leaf_width || stmt.siblings.len() != depth {
            proof {
                assert(!stmt_fits(statements@[p as int], *proof));
            }
            return false;
        }
        let (ok, _msgs) = push_statement(&mut pv, stmt);
        if !ok {
            proof {
                assert(!stmt_fits(statements@[p as int], *proof));
            }
            return false;
        }
        proof {
            assert(g(p as int) == stmt_publics(statements@[p as int]));
            assert(flat((p + 1) as nat, g) =~= flat(p as nat, g) + g(p as int));
            assert(vals(pv@) =~= seq![path_count as int, depth as int] + flat((p + 1) as nat, g));
        }
        p += 1;
    }
    let air = MmcsGroupPathAir { leaf_msg_len: 4 * statements[0].row.len(), depth, path_count };
    let publics: &[Val] = pv.as_slice();
    let bytes: &[u8] = proof.group_stark.as_slice();
    let r: bool = verifier(&air, publics, bytes);
    proof {
        assert(call_ensures(*verifier, (&air, publics, bytes), r));
        assert(vals(publics@) == group_publics(statements@, depth as int));
    }
    r
}

} // verus!
