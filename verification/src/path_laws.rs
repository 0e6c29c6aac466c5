//! Rows of sponge segments satisfy the segment constraints of the path systems.
use vstd::prelude::*;

use crate::bits::{exp2, nat_bit};
use crate::constraint::{all_zero, bit_constraints, lemma_all_zero_concat, WindowVals};
use crate::field::{fbool, fmul, fsub};
use crate::fri_mmcs_path_m4a::{segment_constraints, segment_vals};
use crate::keccak256_air::sponge_row;
use crate::keccak_f_air::{bit_vals, rc_vals};
use crate::keccak_f_native::{
    final_state, keccak256_spec, perm_input, permute, round, rounds, state_bits, state_bytes,
    witness_state, RC,
};
use crate::keccak_merkle_air::layer_msg;
use crate::matrix::byte_vals;
use crate::merkle::{path_digest, path_root};
use crate::merkle_keccak::keccak_pair;
use crate::number_laws::{lemma_number_cells, lemma_number_eq, lemma_number_value};
use crate::path_gadgets::{
    compress_pad, flat, index_constraints, layer_idle_block, layer_start_block, layer_start_constraints,
    lemma_flat_all_zero, offsets_fit, ordered_half, path_constraints, prev_digest, PathOffsets,
    PathSelectorVals, SpongeCellVals,
};
use crate::segments::{
    index_bit_vals, number_bits, padded_digest_vals, padded_layer_vals, segment_row,
};
use crate::sponge_gadgets::{
    bits_value, bytes_constraints, eq_bits, first_block, hold_constraints, packed_byte,
    round_counter_constraints, second_block_constraints, start_constraints, step_constraints,
    zero_constraints,
};
use crate::sponge_laws::{
    lemma_bits_zero, lemma_bytes_zero, lemma_capacity_zero, lemma_counter_zero, lemma_eq_bits,
    lemma_first_block, lemma_hold_zero, lemma_packed_byte, lemma_rc_select, lemma_round_value,
    lemma_row_parts, lemma_second_block, lemma_second_zero, lemma_start_zero, lemma_states,
    lemma_step_zero, round_bits, starts_with,
};

verus! {

/// Products and complements of flags are flags.
pub proof fn lemma_flags(a: bool, b: bool)
    ensures
        fmul(fbool(a), fbool(b)) == fbool(a && b),
        fsub(1, fbool(a)) == fbool(!a),
        fsub(1, fbool(b)) == fbool(!b),
{
}

/// What a row of a segment stands for.
#[verifier::ext_equal]
pub struct SegmentRow {
    pub state: Seq<u64>,
    pub live: bool,
    pub round: int,
    pub start: bool,
    pub seg: int,
}

impl SegmentRow {
    /// The row's cells, followed by what the system adds.
    pub open spec fn cells(self, tail: Seq<int>) -> Seq<int> {
        sponge_row(state_bits(self.state), self.live, self.round).push(fbool(self.start)) + (
        number_bits(self.seg, 5) + tail)
    }

    /// The parts fit their cells.
    pub open spec fn shape(self) -> bool {
        &&& self.state.len() == 25
        &&& 0 <= self.round < 32
        &&& self.live || self.round == 0
        &&& 0 <= self.seg < 32
    }

    /// The counter is within the rounds too.
    pub open spec fn valid(self) -> bool {
        self.shape() && self.round < 24
    }

    /// `n` may follow within the segment.
    pub open spec fn steps_to(self, n: Self) -> bool {
        &&& self.live && n.live && !(self.round == 23 && n.round == 0) ==> n.state == round(
            self.state,
            RC@[self.round],
        ) && n.round == self.round + 1
        &&& self.live && !n.live ==> n.state == round(self.state, RC@[self.round]) && self.round
            == 23
        &&& !self.live ==> n.state == self.state && !n.live
        &&& n.seg == self.seg
    }
}

/// The window of two rows.
pub open spec fn segment_window(
    c: SegmentRow,
    n: SegmentRow,
    tail_c: Seq<int>,
    tail_n: Seq<int>,
    pv: Seq<int>,
    first: bool,
    trans: bool,
) -> WindowVals {
    WindowVals {
        curr: c.cells(tail_c),
        next: n.cells(tail_n),
        pv,
        first: fbool(first),
        trans: fbool(trans),
    }
}

/// The parts of a row's cells.
pub proof fn lemma_cells(c: SegmentRow, tail: Seq<int>)
    requires
        c.shape(),
    ensures
        ({
            let row = c.cells(tail);
            &&& row.len() == 1612 + tail.len()
            &&& row.take(1600) == bit_vals(state_bits(c.state))
            &&& row.take(1606) == sponge_row(state_bits(c.state), c.live, c.round)
            &&& row[1600] == fbool(c.live)
            &&& row.subrange(1601, 1606) == round_bits(c.round)
            &&& row[1606] == fbool(c.start)
            &&& row.subrange(1607, 1612) == number_bits(c.seg, 5)
            &&& row.subrange(1612, 1612 + tail.len() as int) == tail
            &&& forall|i: int| 0 <= i < 1612 ==> #[trigger] row[i] == 0 || row[i] == 1
        }),
{
    let row = c.cells(tail);
    let sp = sponge_row(state_bits(c.state), c.live, c.round);
    lemma_row_parts(c.state, c.live, c.round);
    lemma_number_cells(c.seg, 5);
    assert(row.take(1606) =~= sp);
    assert(row.take(1600) =~= sp.take(1600));
    assert(row.subrange(1601, 1606) =~= sp.subrange(1601, 1606));
    assert(row.subrange(1607, 1612) =~= number_bits(c.seg, 5));
    assert(row.subrange(1612, 1612 + tail.len() as int) =~= tail);
    assert(row[1600] == sp[1600]);
    assert forall|i: int| 0 <= i < 1612 implies #[trigger] row[i] == 0 || row[i] == 1 by {
        if i < 1606 {
            assert(row[i] == sp[i]);
        } else if i > 1606 {
            assert(row[i] == number_bits(c.seg, 5)[i - 1607]);
        }
    }
}

/// What the system reads from a window of segment rows.
pub proof fn lemma_segment_parts(
    c: SegmentRow,
    n: SegmentRow,
    tail_c: Seq<int>,
    tail_n: Seq<int>,
    pv: Seq<int>,
    first: bool,
    trans: bool,
)
    requires
        c.valid(),
        n.shape(),
    ensures
        ({
            let w = segment_window(c, n, tail_c, tail_n, pv, first, trans);
            let v = segment_vals(w);
            &&& v.cells.state_c == bit_vals(state_bits(c.state))
            &&& v.cells.state_n == bit_vals(state_bits(n.state))
            &&& v.cells.rc == rc_vals(RC@[c.round])
            &&& v.cells.live == fbool(c.live)
            &&& v.cells.round_c == c.round
            &&& v.cells.round_n == n.round
            &&& v.both_live == fbool(c.live && n.live)
            &&& v.wrap == fbool(c.round == 23 && n.round == 0)
            &&& v.idle == fbool(!c.live)
            &&& v.seg_start == fbool(c.start)
            &&& v.seg_c == number_bits(c.seg, 5)
            &&& v.seg_n == number_bits(n.seg, 5)
            &&& w.next[1606] == fbool(n.start)
            &&& w.curr.subrange(1612, 1612 + tail_c.len() as int) == tail_c
            &&& w.next.subrange(1612, 1612 + tail_n.len() as int) == tail_n
            &&& forall|t: int|
                0 <= t < 32 ==> #[trigger] eq_bits(v.seg_c, t) == fbool(c.seg == t)
            &&& forall|t: int|
                0 <= t < 32 ==> #[trigger] eq_bits(v.seg_n, t) == fbool(n.seg == t)
        }),
{
    lemma_cells(c, tail_c);
    lemma_cells(n, tail_n);
    lemma_eq_bits(c.round, 23);
    lemma_eq_bits(n.round, 0);
    lemma_round_value(c.round);
    lemma_round_value(n.round);
    lemma_rc_select(c.round);
    reveal_with_fuel(exp2, 6);
    let w = segment_window(c, n, tail_c, tail_n, pv, first, trans);
    let v = segment_vals(w);
    assert(v.both_live == fbool(c.live && n.live));
    assert(v.wrap == fbool(c.round == 23 && n.round == 0));
    assert(v.idle == fbool(!c.live));
    assert(v.seg_c == number_bits(c.seg, 5));
    assert(v.seg_n == number_bits(n.seg, 5));
    assert forall|t: int| 0 <= t < 32 implies #[trigger] eq_bits(number_bits(c.seg, 5), t)
        == fbool(c.seg == t) by {
        lemma_number_eq(c.seg, t, 5);
    }
    assert forall|t: int| 0 <= t < 32 implies #[trigger] eq_bits(number_bits(n.seg, 5), t)
        == fbool(n.seg == t) by {
        lemma_number_eq(n.seg, t, 5);
    }
}

/// The segment constraints hold where each row leads to the next within its segment.
pub proof fn lemma_segment_zero(
    c: SegmentRow,
    n: SegmentRow,
    tail_c: Seq<int>,
    tail_n: Seq<int>,
    pv: Seq<int>,
    first: bool,
    trans: bool,
    same: bool,
)
    requires
        c.valid(),
        n.valid(),
        forall|k: int| 0 <= k < tail_c.len() ==> #[trigger] tail_c[k] == 0 || tail_c[k] == 1,
        trans && same ==> c.steps_to(n),
    ensures
        all_zero(
            segment_constraints(
                segment_window(c, n, tail_c, tail_n, pv, first, trans),
                fbool(same),
            ),
        ),
{
    reveal(segment_constraints);
    let w = segment_window(c, n, tail_c, tail_n, pv, first, trans);
    let v = segment_vals(w);
    lemma_cells(c, tail_c);
    lemma_cells(n, tail_n);
    lemma_segment_parts(c, n, tail_c, tail_n, pv, first, trans);
    let wrap = c.round == 23 && n.round == 0;
    let cont = trans && same && c.live && n.live && !wrap;
    let fin = trans && same && c.live && !n.live;
    let hold = trans && same && !c.live;
    assert(fmul(w.trans, fmul(fmul(v.both_live, fsub(1, v.wrap)), fbool(same))) == fbool(cont));
    assert(w.next[1600] == fbool(n.live));
    assert(fmul(w.trans, fmul(fmul(v.cells.live, fsub(1, w.next[1600])), fbool(same))) == fbool(
        fin,
    ));
    assert(fmul(fmul(w.trans, v.idle), fbool(same)) == fbool(hold));
    assert(fmul(w.trans, fbool(same)) == fbool(trans && same));
    assert forall|i: int| 0 <= i < w.curr.len() implies #[trigger] w.curr[i] == 0 || w.curr[i]
        == 1 by {
        if i >= 1612 {
            assert(w.curr[i] == w.curr.subrange(1612, 1612 + tail_c.len() as int)[i - 1612]);
        }
    }
    lemma_bits_zero(w.curr);
    lemma_counter_zero(c.live, c.round);
    lemma_step_zero(c.state, n.state, c.round, n.round, cont, fin);
    lemma_hold_zero(w.curr.take(1606), w.next.take(1606), hold);
    lemma_hold_zero(v.seg_c, v.seg_n, trans && same);
    let c1 = bit_constraints(w.curr);
    let c2 = round_counter_constraints(v.cells.live, w.curr.subrange(1601, 1606));
    let c3 = step_constraints(
        v.cells.state_c,
        v.cells.state_n,
        v.cells.rc,
        fbool(cont),
        fbool(fin),
        c.round,
        n.round,
    );
    let c4 = hold_constraints(w.curr.take(1606), w.next.take(1606), fbool(hold));
    let c5 = hold_constraints(v.seg_c, v.seg_n, fbool(trans && same));
    lemma_all_zero_concat(c1, c2);
    lemma_all_zero_concat(c1 + c2, c3);
    lemma_all_zero_concat(c1 + c2 + c3, c4);
    lemma_all_zero_concat(c1 + c2 + c3 + c4, c5);
}

/// The start of a level holds where the state starts with its two halves and the padding.
pub proof fn lemma_layer_start_zero(
    s: Seq<u64>,
    bit: bool,
    prev: Seq<int>,
    sib: Seq<int>,
    live: bool,
    r: int,
    en: bool,
)
    requires
        s.len() == 25,
        prev.len() == 32,
        sib.len() == 32,
        en ==> live && r == 0,
        en ==> forall|l: int| 17 <= l < 25 ==> #[trigger] s[l] == 0,
        en ==> forall|i: int|
            0 <= i < 32 ==> #[trigger] state_bytes(s)[i] == (if bit {
                sib[i]
            } else {
                prev[i]
            }),
        en ==> forall|i: int|
            32 <= i < 64 ==> #[trigger] state_bytes(s)[i] == (if bit {
                prev[i - 32]
            } else {
                sib[i - 32]
            }),
        en ==> forall|i: int|
            64 <= i < 136 ==> #[trigger] state_bytes(s)[i] == compress_pad()[i - 64],
    ensures
        all_zero(
            layer_start_constraints(
                bit_vals(state_bits(s)),
                fbool(bit),
                prev,
                sib,
                fbool(live),
                r,
                fbool(en),
            ),
        ),
{
    reveal(layer_start_constraints);
    let a = bit_vals(state_bits(s));
    let x = Seq::new(
        64,
        |j: int|
            fmul(
                fbool(en),
                fsub(
                    packed_byte(a, j / 2 + 32 * (j % 2)),
                    ordered_half(fbool(bit), prev, sib, j),
                ),
            ),
    );
    assert forall|j: int| 0 <= j < 64 implies #[trigger] x[j] == 0 by {
        let i = j / 2 + 32 * (j % 2);
        lemma_packed_byte(s, i);
        if en {
            let y = state_bytes(s)[i];
            let p = prev[j / 2];
            let q = sib[j / 2];
            assert(0 <= y < 256);
            assert(y == (if bit == (j % 2 == 0) {
                q
            } else {
                p
            }));
            assert(0 * p == 0 && 0 * q == 0 && 1 * p == p && 1 * q == q);
            assert(fsub(1, 1) == 0 && fsub(1, 0) == 1);
            if bit {
                assert(ordered_half(1, prev, sib, j) == y);
            } else {
                assert(ordered_half(0, prev, sib, j) == y);
            }
        }
    }
    lemma_bytes_zero(s, 64, compress_pad(), en);
    let y = bytes_constraints(a, 64, compress_pad(), fbool(en));
    lemma_capacity_zero(s, en);
    let z = zero_constraints(a.subrange(1088, 1600), fbool(en));
    let t = seq![fmul(fbool(en), fsub(fbool(live), 1)), fmul(fbool(en), r)];
    assert(all_zero(t));
    lemma_all_zero_concat(x, y);
    lemma_all_zero_concat(x + y, z);
    lemma_all_zero_concat(x + y + z, t);
}

/// Row `j` of the segment `seg` that hashes `m`.
pub open spec fn row_of(m: Seq<u8>, seg: int, j: int) -> SegmentRow {
    let live = j < 24 * (m.len() as int / 136 + 1);
    SegmentRow {
        state: if live {
            witness_state(m, j)
        } else {
            final_state(m)
        },
        live,
        round: if live {
            j % 24
        } else {
            0
        },
        start: j == 0,
        seg,
    }
}

/// The rows of a segment are the sponge rows of its message, each leads to the next, and idle
/// rows hold the digest.
pub proof fn lemma_row_of(m: Seq<u8>, seg: int, j: int, tail: Seq<int>)
    requires
        m.len() < 272,
        0 <= seg < 32,
        0 <= j,
    ensures
        row_of(m, seg, j).valid(),
        segment_row(m, number_bits(seg, 5) + tail, j) == row_of(m, seg, j).cells(tail),
        row_of(m, seg, j).steps_to(row_of(m, seg, j + 1)),
        j == 0 ==> row_of(m, seg, j).live && row_of(m, seg, j).state == perm_input(m, 0),
        !row_of(m, seg, j).live ==> state_bytes(row_of(m, seg, j).state).take(32)
            == keccak256_spec(m),
{
    reveal(keccak256_spec);
    let pv = byte_vals(m);
    lemma_first_block(m, pv, 0);
    if m.len() >= 136 {
        lemma_second_block(m, pv, 0);
    }
    let n = 24 * (m.len() as int / 136 + 1);
    lemma_states(
        m,
        if j < n {
            j
        } else {
            0
        },
    );
    if j + 1 < n {
        lemma_states(m, j + 1);
    }
    if j == 0 {
        assert(rounds(perm_input(m, 0), 0) == perm_input(m, 0));
    }
    if j < n && j + 1 == n {
        assert(j % 24 == 23);
    }
    if j < n && j + 1 < n && j % 24 == 23 {
        assert((j + 1) % 24 == 0);
    }
}

/// A digest has 32 bytes.
pub proof fn lemma_digest_len(m: Seq<u8>)
    ensures
        keccak256_spec(m).len() == 32,
{
    reveal(keccak256_spec);
}

/// The public values list this path at these offsets.
pub open spec fn path_listed(
    pv: Seq<int>,
    off: PathOffsets,
    msg: Seq<u8>,
    siblings: Seq<[u8; 32]>,
    index: int,
) -> bool {
    let leaf = keccak256_spec(msg);
    let root = path_root(keccak_pair(), leaf, siblings, index);
    &&& offsets_fit(off, msg.len() as int, pv.len() as int)
    &&& pv.subrange(off.msg as int, off.msg + msg.len()) == byte_vals(msg)
    &&& pv.subrange(off.leaf_digest as int, off.leaf_digest + 32) == byte_vals(leaf)
    &&& pv.subrange(off.root as int, off.root + 32) == byte_vals(root)
    &&& pv.subrange(off.index_bits as int, off.index_bits + 20) == index_bit_vals(
        index,
        siblings.len() as int,
    )
    &&& pv.subrange(off.siblings as int, off.siblings + 640) == padded_digest_vals(siblings)
    &&& pv.subrange(off.layers as int, off.layers + 640) == padded_layer_vals(
        leaf,
        siblings,
        index,
    )
    &&& pv[off.index as int] == index
}

/// The message of a segment of a path.
pub open spec fn seg_msg(
    msg: Seq<u8>,
    siblings: Seq<[u8; 32]>,
    index: int,
    seg: int,
) -> Seq<u8> {
    if seg == 0 {
        msg
    } else {
        layer_msg(keccak256_spec(msg), siblings, index, seg - 1)
    }
}

/// Level messages join two digests, and their digest is the next one of the path.
pub proof fn lemma_layer_msg(msg: Seq<u8>, siblings: Seq<[u8; 32]>, index: int, l: int)
    requires
        0 <= l < siblings.len(),
    ensures
        path_digest(keccak_pair(), keccak256_spec(msg), siblings, index, l as nat).len() == 32,
        path_digest(keccak_pair(), keccak256_spec(msg), siblings, index, (l + 1) as nat).len()
            == 32,
        layer_msg(keccak256_spec(msg), siblings, index, l).len() == 64,
        keccak256_spec(layer_msg(keccak256_spec(msg), siblings, index, l)) == path_digest(
            keccak_pair(),
            keccak256_spec(msg),
            siblings,
            index,
            (l + 1) as nat,
        ),
    decreases l,
{
    let leaf = keccak256_spec(msg);
    lemma_digest_len(msg);
    if l > 0 {
        lemma_layer_msg(msg, siblings, index, l - 1);
    }
    lemma_digest_len(layer_msg(leaf, siblings, index, l));
}

/// What the public values list for one level.
proof fn lemma_level_listed(
    pv: Seq<int>,
    off: PathOffsets,
    msg: Seq<u8>,
    siblings: Seq<[u8; 32]>,
    index: int,
    l: int,
)
    requires
        path_listed(pv, off, msg, siblings, index),
        siblings.len() <= 20,
        0 <= l < siblings.len(),
    ensures
        pv[off.index_bits + l] == fbool(nat_bit(index, l as nat)),
        prev_digest(pv, off, l) == byte_vals(
            path_digest(keccak_pair(), keccak256_spec(msg), siblings, index, l as nat),
        ),
        pv.subrange(off.siblings + 32 * l, off.siblings + 32 * (l + 1)) == byte_vals(siblings[l]@),
        pv.subrange(off.layers + 32 * l, off.layers + 32 * (l + 1)) == byte_vals(
            path_digest(keccak_pair(), keccak256_spec(msg), siblings, index, (l + 1) as nat),
        ),
{
    let leaf = keccak256_spec(msg);
    let bits = pv.subrange(off.index_bits as int, off.index_bits + 20);
    assert(pv[off.index_bits + l] == bits[l]);
    lemma_layer_msg(msg, siblings, index, l);
    let ls = pv.subrange(off.layers as int, off.layers + 640);
    let ss = pv.subrange(off.siblings as int, off.siblings + 640);
    let a = pv.subrange(off.siblings + 32 * l, off.siblings + 32 * (l + 1));
    assert forall|i: int| 0 <= i < 32 implies #[trigger] a[i] == siblings[l]@[i] by {
        assert(a[i] == ss[32 * l + i]);
        assert((32 * l + i) / 32 == l && (32 * l + i) % 32 == i);
    }
    assert(a =~= byte_vals(siblings[l]@));
    let d = path_digest(keccak_pair(), leaf, siblings, index, (l + 1) as nat);
    let b = pv.subrange(off.layers + 32 * l, off.layers + 32 * (l + 1));
    assert forall|i: int| 0 <= i < 32 implies #[trigger] b[i] == d[i] by {
        assert(b[i] == ls[32 * l + i]);
        assert((32 * l + i) / 32 == l && (32 * l + i) % 32 == i);
    }
    assert(b =~= byte_vals(d));
    if l > 0 {
        let k = l - 1;
        let e = path_digest(keccak_pair(), leaf, siblings, index, l as nat);
        let c = prev_digest(pv, off, l);
        assert forall|i: int| 0 <= i < 32 implies #[trigger] c[i] == e[i] by {
            assert(c[i] == ls[32 * k + i]);
            assert((32 * k + i) / 32 == k && (32 * k + i) % 32 == i);
        }
        assert(c =~= byte_vals(e));
    }
}

/// The start of a level holds on the first row of its segment.
proof fn lemma_level_start(
    pv: Seq<int>,
    off: PathOffsets,
    msg: Seq<u8>,
    siblings: Seq<[u8; 32]>,
    index: int,
    l: int,
    c: SegmentRow,
    en: bool,
)
    requires
        path_listed(pv, off, msg, siblings, index),
        siblings.len() <= 20,
        0 <= l < siblings.len(),
        c.valid(),
        en ==> c == row_of(seg_msg(msg, siblings, index, l + 1), l + 1, 0),
    ensures
        all_zero(
            layer_start_constraints(
                bit_vals(state_bits(c.state)),
                pv[off.index_bits + l],
                prev_digest(pv, off, l),
                pv.subrange(off.siblings + 32 * l, off.siblings + 32 * (l + 1)),
                fbool(c.live),
                c.round,
                fbool(en),
            ),
        ),
{
    let m = layer_msg(keccak256_spec(msg), siblings, index, l);
    let d = path_digest(keccak_pair(), keccak256_spec(msg), siblings, index, l as nat);
    lemma_level_listed(pv, off, msg, siblings, index, l);
    lemma_layer_msg(msg, siblings, index, l);
    let bit = nat_bit(index, l as nat);
    let prev = byte_vals(d);
    let sib = byte_vals(siblings[l]@);
    if en {
        lemma_row_of(m, l + 1, 0, Seq::empty());
        lemma_first_block(m, byte_vals(m), 0);
        let block = first_block(byte_vals(m), 0, 64);
        let s = c.state;
        assert(starts_with(s, block));
        assert forall|i: int| 0 <= i < 32 implies #[trigger] state_bytes(s)[i] == (if bit {
            sib[i]
        } else {
            prev[i]
        }) by {
            assert(block[i] == m[i]);
        }
        assert forall|i: int| 32 <= i < 64 implies #[trigger] state_bytes(s)[i] == (if bit {
            prev[i - 32]
        } else {
            sib[i - 32]
        }) by {
            assert(block[i] == m[i]);
        }
        assert forall|i: int| 64 <= i < 136 implies #[trigger] state_bytes(s)[i]
            == compress_pad()[i - 64] by {
            assert(block[i] == compress_pad()[i - 64]);
        }
    }
    lemma_layer_start_zero(c.state, bit, prev, sib, c.live, c.round, en);
}

/// The digest of a level holds on the idle rows of its segment.
proof fn lemma_level_idle(
    pv: Seq<int>,
    off: PathOffsets,
    msg: Seq<u8>,
    siblings: Seq<[u8; 32]>,
    index: int,
    l: int,
    c: SegmentRow,
    j: int,
    en: bool,
)
    requires
        path_listed(pv, off, msg, siblings, index),
        siblings.len() <= 20,
        0 <= l < siblings.len(),
        c.valid(),
        0 <= j,
        en ==> !c.live && c == row_of(seg_msg(msg, siblings, index, l + 1), l + 1, j),
    ensures
        all_zero(
            bytes_constraints(
                bit_vals(state_bits(c.state)),
                0,
                pv.subrange(off.layers + 32 * l, off.layers + 32 * (l + 1)),
                fbool(en),
            ),
        ),
{
    let m = layer_msg(keccak256_spec(msg), siblings, index, l);
    let d = path_digest(keccak_pair(), keccak256_spec(msg), siblings, index, (l + 1) as nat);
    lemma_level_listed(pv, off, msg, siblings, index, l);
    lemma_layer_msg(msg, siblings, index, l);
    let want = byte_vals(d);
    if en {
        lemma_row_of(m, l + 1, j, Seq::empty());
        let h = state_bytes(c.state).take(32);
        assert forall|i: int| 0 <= i < want.len() implies #[trigger] want[i] == state_bytes(
            c.state,
        )[0 + i] by {
            assert(h[i] == d[i]);
        }
    }
    lemma_bytes_zero(c.state, 0, want, en);
}

/// The cells and counters of a row pair.
pub open spec fn row_cells(c: SegmentRow, n: SegmentRow) -> SpongeCellVals {
    SpongeCellVals {
        state_c: bit_vals(state_bits(c.state)),
        state_n: bit_vals(state_bits(n.state)),
        rc: rc_vals(RC@[c.round]),
        live: fbool(c.live),
        round_c: c.round,
        round_n: n.round,
    }
}

/// The selectors of a path, all off unless `on`.
pub open spec fn row_selectors(
    c: SegmentRow,
    n: SegmentRow,
    trans: bool,
    same: bool,
    on: bool,
    depth: nat,
) -> PathSelectorVals {
    PathSelectorVals {
        leaf_start: fbool(on && c.start && c.seg == 0),
        second_block: fbool(
            on && trans && same && c.live && n.live && c.round == 23 && n.round == 0 && c.seg == 0,
        ),
        layer_start: Seq::new(depth, |l: int| fbool(on && c.start && c.seg == l + 1)),
        leaf_idle: fbool(on && !c.live && c.seg == 0),
        layer_idle: Seq::new(depth, |l: int| fbool(on && !c.live && c.seg == l + 1)),
    }
}

/// The rows belong to this path: `c` is row `j` of its segment, and where the segment goes on,
/// `n` is the next.
pub open spec fn rows_of_path(
    c: SegmentRow,
    n: SegmentRow,
    goes_on: bool,
    j: int,
    msg: Seq<u8>,
    siblings: Seq<[u8; 32]>,
    index: int,
) -> bool {
    let m = seg_msg(msg, siblings, index, c.seg);
    &&& 0 <= c.seg <= siblings.len()
    &&& 0 <= j
    &&& c == row_of(m, c.seg, j)
    &&& goes_on ==> n == row_of(m, c.seg, j + 1)
}

/// The leaf's families hold on the rows of a path.
proof fn lemma_leaf_zero(
    pv: Seq<int>,
    off: PathOffsets,
    msg: Seq<u8>,
    siblings: Seq<[u8; 32]>,
    index: int,
    c: SegmentRow,
    n: SegmentRow,
    j: int,
    trans: bool,
    same: bool,
    on: bool,
)
    requires
        path_listed(pv, off, msg, siblings, index),
        msg.len() < 272,
        c.valid(),
        n.valid(),
        on ==> rows_of_path(c, n, trans && same, j, msg, siblings, index),
    ensures
        ({
            let k = row_cells(c, n);
            let s = row_selectors(c, n, trans, same, on, siblings.len());
            let len = msg.len() as int;
            &&& all_zero(
                start_constraints(
                    k.state_c,
                    first_block(pv, off.msg as int, len),
                    k.live,
                    k.round_c,
                    s.leaf_start,
                ),
            )
            &&& msg.len() > 136 ==> all_zero(
                second_block_constraints(
                    k.state_c,
                    k.state_n,
                    k.rc,
                    pv,
                    off.msg as int,
                    len,
                    k.round_n,
                    s.second_block,
                ),
            )
            &&& all_zero(
                bytes_constraints(
                    k.state_c,
                    0,
                    pv.subrange(off.leaf_digest as int, off.leaf_digest as int + 32),
                    s.leaf_idle,
                ),
            )
        }),
{
    let len = msg.len() as int;
    let base = off.msg as int;
    let listed = pv.subrange(base, base + len);
    assert forall|i: int| 0 <= i < msg.len() implies #[trigger] msg[i] == pv[base + i] by {
        assert(listed[i] == msg[i]);
    }
    lemma_first_block(msg, pv, base);
    let start = on && c.start && c.seg == 0;
    if on && c.seg == 0 {
        lemma_row_of(msg, 0, j, Seq::empty());
    }
    lemma_start_zero(c.state, first_block(pv, base, len), c.live, c.round, start);
    if len > 136 {
        lemma_second_block(msg, pv, base);
        let second = on && trans && same && c.live && n.live && c.round == 23 && n.round == 0
            && c.seg == 0;
        if second {
            assert(j == 23);
            lemma_states(msg, 23);
            assert(round(c.state, RC@[23]) == permute(perm_input(msg, 0)));
            assert(n.state == perm_input(msg, 1));
        }
        lemma_second_zero(c.state, n.state, RC@[c.round], pv, base, len, n.round, second);
    }
    let idle = on && !c.live && c.seg == 0;
    let want = pv.subrange(off.leaf_digest as int, off.leaf_digest as int + 32);
    if idle {
        let h = state_bytes(c.state).take(32);
        assert forall|i: int| 0 <= i < want.len() implies #[trigger] want[i] == state_bytes(
            c.state,
        )[0 + i] by {
            assert(h[i] == keccak256_spec(msg)[i]);
        }
    }
    lemma_bytes_zero(c.state, 0, want, idle);
}

/// The levels' families hold on the rows of a path.
proof fn lemma_levels_zero(
    pv: Seq<int>,
    off: PathOffsets,
    msg: Seq<u8>,
    siblings: Seq<[u8; 32]>,
    index: int,
    c: SegmentRow,
    n: SegmentRow,
    j: int,
    trans: bool,
    same: bool,
    on: bool,
)
    requires
        path_listed(pv, off, msg, siblings, index),
        0 < siblings.len() <= 20,
        c.valid(),
        n.valid(),
        on ==> rows_of_path(c, n, trans && same, j, msg, siblings, index),
    ensures
        ({
            let k = row_cells(c, n);
            let s = row_selectors(c, n, trans, same, on, siblings.len());
            &&& all_zero(flat(siblings.len(), |l: int| layer_start_block(k, pv, off, s, l)))
            &&& all_zero(flat(siblings.len(), |l: int| layer_idle_block(k, pv, off, s, l)))
        }),
{
    let k = row_cells(c, n);
    let s = row_selectors(c, n, trans, same, on, siblings.len());
    let fs = |l: int| layer_start_block(k, pv, off, s, l);
    let fi = |l: int| layer_idle_block(k, pv, off, s, l);
    assert forall|l: int| 0 <= l < siblings.len() implies all_zero(#[trigger] fs(l)) by {
        let en = on && c.start && c.seg == l + 1;
        lemma_level_start(pv, off, msg, siblings, index, l, c, en);
    }
    assert forall|l: int| 0 <= l < siblings.len() implies all_zero(#[trigger] fi(l)) by {
        let en = on && !c.live && c.seg == l + 1;
        lemma_level_idle(
            pv,
            off,
            msg,
            siblings,
            index,
            l,
            c,
            if en {
                j
            } else {
                0
            },
            en,
        );
    }
    lemma_flat_all_zero(siblings.len(), fs);
    lemma_flat_all_zero(siblings.len(), fi);
}

/// The last level's digest is the root.
proof fn lemma_root_zero(
    pv: Seq<int>,
    off: PathOffsets,
    msg: Seq<u8>,
    siblings: Seq<[u8; 32]>,
    index: int,
)
    requires
        path_listed(pv, off, msg, siblings, index),
        0 < siblings.len() <= 20,
    ensures
        all_zero(
            Seq::new(
                32,
                |i: int|
                    fsub(pv[off.layers + 32 * (siblings.len() - 1) + i], pv[off.root + i]),
            ),
        ),
{
    let depth = siblings.len() as int;
    let l = depth - 1;
    lemma_level_listed(pv, off, msg, siblings, index, l);
    lemma_layer_msg(msg, siblings, index, l);
    let last = pv.subrange(off.layers + 32 * l, off.layers + 32 * (l + 1));
    let root = pv.subrange(off.root as int, off.root + 32);
    let c = Seq::new(
        32,
        |i: int| fsub(pv[off.layers + 32 * (siblings.len() - 1) + i], pv[off.root + i]),
    );
    assert forall|i: int| 0 <= i < 32 implies #[trigger] c[i] == 0 by {
        assert(last[i] == root[i]);
        assert(pv[off.layers + 32 * (siblings.len() - 1) + i] == last[i]);
        assert(pv[off.root + i] == root[i]);
    }
}

/// All families of a path hold on its rows, and on any rows where its selectors are off.
pub proof fn lemma_path_zero(
    pv: Seq<int>,
    off: PathOffsets,
    msg: Seq<u8>,
    siblings: Seq<[u8; 32]>,
    index: int,
    c: SegmentRow,
    n: SegmentRow,
    j: int,
    trans: bool,
    same: bool,
    on: bool,
)
    requires
        path_listed(pv, off, msg, siblings, index),
        msg.len() < 272,
        0 < siblings.len() <= 20,
        c.valid(),
        n.valid(),
        on ==> rows_of_path(c, n, trans && same, j, msg, siblings, index),
    ensures
        all_zero(
            path_constraints(
                row_cells(c, n),
                pv,
                off,
                msg.len() as int,
                siblings.len(),
                row_selectors(c, n, trans, same, on, siblings.len()),
            ),
        ),
{
    reveal(path_constraints);
    let depth = siblings.len();
    let len = msg.len() as int;
    let k = row_cells(c, n);
    let s = row_selectors(c, n, trans, same, on, depth);
    lemma_leaf_zero(pv, off, msg, siblings, index, c, n, j, trans, same, on);
    lemma_levels_zero(pv, off, msg, siblings, index, c, n, j, trans, same, on);
    lemma_root_zero(pv, off, msg, siblings, index);
    let c1 = start_constraints(
        k.state_c,
        first_block(pv, off.msg as int, len),
        k.live,
        k.round_c,
        s.leaf_start,
    );
    let c2 = if len > 136 {
        second_block_constraints(
            k.state_c,
            k.state_n,
            k.rc,
            pv,
            off.msg as int,
            len,
            k.round_n,
            s.second_block,
        )
    } else {
        Seq::empty()
    };
    let c3 = flat(depth, |l: int| layer_start_block(k, pv, off, s, l));
    let c4 = bytes_constraints(
        k.state_c,
        0,
        pv.subrange(off.leaf_digest as int, off.leaf_digest as int + 32),
        s.leaf_idle,
    );
    let c5 = flat(depth, |l: int| layer_idle_block(k, pv, off, s, l));
    let c6 = Seq::new(
        32,
        |i: int| fsub(pv[off.layers + 32 * (depth - 1) + i], pv[off.root + i]),
    );
    assert(all_zero(c2));
    lemma_all_zero_concat(c1, c2);
    lemma_all_zero_concat(c1 + c2, c3);
    lemma_all_zero_concat(c1 + c2 + c3, c4);
    lemma_all_zero_concat(c1 + c2 + c3 + c4, c5);
    lemma_all_zero_concat(c1 + c2 + c3 + c4 + c5, c6);
}

/// The index family holds for an index within the depth.
pub proof fn lemma_index_zero(
    pv: Seq<int>,
    off: PathOffsets,
    msg: Seq<u8>,
    siblings: Seq<[u8; 32]>,
    index: int,
)
    requires
        path_listed(pv, off, msg, siblings, index),
        0 < siblings.len() <= 20,
        0 <= index < exp2(siblings.len()),
    ensures
        all_zero(index_constraints(pv, off, siblings.len() as int)),
{
    reveal(index_constraints);
    let depth = siblings.len() as int;
    let all = pv.subrange(off.index_bits as int, off.index_bits + 20);
    let bits = pv.subrange(off.index_bits as int, off.index_bits + depth);
    assert forall|i: int| 0 <= i < depth implies #[trigger] bits[i] == number_bits(
        index,
        siblings.len(),
    )[i] by {
        assert(bits[i] == all[i]);
    }
    assert(bits =~= number_bits(index, siblings.len()));
    lemma_number_value(index, siblings.len());
    let high = pv.subrange(off.index_bits + depth, off.index_bits as int + 20);
    assert forall|i: int| 0 <= i < high.len() implies #[trigger] high[i] == 0 by {
        assert(high[i] == all[depth + i]);
    }
    let t = seq![fsub(bits_value(bits), pv[off.index as int])];
    assert(all_zero(t));
    lemma_all_zero_concat(high, t);
}

/// A counter at zero on the first row.
pub proof fn lemma_first_zero(x: int, n: nat, first: bool)
    requires
        first ==> x == 0,
    ensures
        all_zero(zero_constraints(number_bits(x, n), fbool(first))),
{
    let c = zero_constraints(number_bits(x, n), fbool(first));
    assert forall|i: int| 0 <= i < c.len() implies #[trigger] c[i] == 0 by {
        if first {
            lemma_zero_bit(i as nat);
        }
        assert(c[i] == fmul(fbool(first), number_bits(x, n)[i]));
    }
}

proof fn lemma_zero_bit(k: nat)
    ensures
        !nat_bit(0, k),
    decreases k,
{
    if k > 0 {
        lemma_zero_bit((k - 1) as nat);
    }
}

} // verus!
