//! A trace of bits that satisfies the path constraints proves the path.
use vstd::prelude::*;

use crate::bits::nat_bit;
use crate::constraint::{all_zero, bit_constraints, lemma_all_zero_concat};
use crate::field::{fbool, fmul, fsub};
use crate::fri_mmcs_path_m4a::{segment_constraints, segment_vals};
use crate::keccak256_air::{lemma_sponge_rows, sponge_rows};
use crate::keccak_f_air::bit_vals;
use crate::keccak_f_native::{
    final_state, keccak256_spec, perm_input, round, rounds, state_bits, state_bytes,
    witness_state, RC,
};
use crate::matrix::byte_vals;
use crate::merkle::{is_path_layers, path_digest, path_root};
use crate::merkle_keccak::keccak_pair;
use crate::path_gadgets::{
    compress_pad, flat, layer_idle_block, layer_start_block, layer_start_constraints,
    lemma_flat_all_zero, offsets_fit, ordered_half, path_constraints, prev_digest, PathOffsets,
};
use crate::path_laws::{
    lemma_cells, lemma_flags, lemma_segment_parts, row_cells, row_selectors, segment_window,
    SegmentRow,
};
use crate::segments::{index_bit_vals, padded_digest_vals};
use crate::sponge_converse::{
    lemma_same_state, lemma_second_exact, lemma_start_exact, lemma_step_exact,
};
use crate::sponge_gadgets::{
    bytes_constraints, first_block, hold_constraints, packed_byte, round_counter_constraints,
    second_block_constraints, start_constraints, step_constraints, zero_constraints,
};
use crate::sponge_laws::{
    lemma_first_block, lemma_packed_byte, lemma_round_sum, lemma_second_block, lemma_states,
    lemma_zero_lane, round_bits, starts_with,
};

verus! {

/// A live row leads to the next by its round.
pub open spec fn rounds_to(c: SegmentRow, n: SegmentRow) -> bool {
    &&& c.live && n.live && !(c.round == 23 && n.round == 0) ==> n.state == round(
        c.state,
        RC@[c.round],
    ) && n.round == c.round + 1
    &&& c.live && !n.live ==> n.state == round(c.state, RC@[c.round]) && c.round == 23
}

/// What satisfied segment constraints say.
pub proof fn lemma_segment_exact(
    c: SegmentRow,
    n: SegmentRow,
    tail_c: Seq<int>,
    tail_n: Seq<int>,
    pv: Seq<int>,
    first: bool,
    trans: bool,
    same: bool,
)
    requires
        c.shape(),
        n.shape(),
        all_zero(
            segment_constraints(
                segment_window(c, n, tail_c, tail_n, pv, first, trans),
                fbool(same),
            ),
        ),
    ensures
        c.valid(),
        trans && same ==> rounds_to(c, n),
{
    reveal(segment_constraints);
    let w = segment_window(c, n, tail_c, tail_n, pv, first, trans);
    let v = segment_vals(w);
    lemma_cells(c, tail_c);
    lemma_cells(n, tail_n);
    let rb = round_bits(c.round);
    let c1 = bit_constraints(w.curr);
    let c2 = round_counter_constraints(v.cells.live, rb);
    let c3 = step_constraints(
        v.cells.state_c,
        v.cells.state_n,
        v.cells.rc,
        fmul(w.trans, fmul(fmul(v.both_live, fsub(1, v.wrap)), fbool(same))),
        fmul(w.trans, fmul(fmul(v.cells.live, fsub(1, w.next[1600])), fbool(same))),
        v.cells.round_c,
        v.cells.round_n,
    );
    let c4 = hold_constraints(
        w.curr.take(1606),
        w.next.take(1606),
        fmul(fmul(w.trans, v.idle), fbool(same)),
    );
    let c5 = hold_constraints(v.seg_c, v.seg_n, fmul(w.trans, fbool(same)));
    lemma_all_zero_concat(c1, c2);
    lemma_all_zero_concat(c1 + c2, c3);
    lemma_all_zero_concat(c1 + c2 + c3, c4);
    lemma_all_zero_concat(c1 + c2 + c3 + c4, c5);
    assert(c.round < 24) by {
        lemma_round_sum(c.round, 24);
        assert(c2[0] == 0);
    }
    lemma_segment_parts(c, n, tail_c, tail_n, pv, first, trans);
    let wrap = c.round == 23 && n.round == 0;
    let cont = trans && same && c.live && n.live && !wrap;
    let fin = trans && same && c.live && !n.live;
    lemma_flags(c.live && n.live, !wrap);
    lemma_flags(wrap, n.live);
    lemma_flags(c.live && n.live && !wrap, same);
    lemma_flags(trans, c.live && n.live && !wrap && same);
    assert(w.next[1600] == fbool(n.live));
    lemma_flags(c.live, !n.live);
    lemma_flags(c.live && !n.live, same);
    lemma_flags(trans, c.live && !n.live && same);
    lemma_step_exact(c.state, n.state, c.round, n.round, cont, fin);
}

/// The public values claim this path at these offsets.
pub open spec fn path_claimed(
    pv: Seq<int>,
    off: PathOffsets,
    msg: Seq<u8>,
    leaf: Seq<u8>,
    root: Seq<u8>,
    index: int,
    siblings: Seq<[u8; 32]>,
    layers: Seq<[u8; 32]>,
) -> bool {
    &&& offsets_fit(off, msg.len() as int, pv.len() as int)
    &&& 0 < siblings.len() <= 20
    &&& layers.len() == siblings.len()
    &&& leaf.len() == 32
    &&& root.len() == 32
    &&& pv.subrange(off.msg as int, off.msg + msg.len()) == byte_vals(msg)
    &&& pv.subrange(off.leaf_digest as int, off.leaf_digest + 32) == byte_vals(leaf)
    &&& pv.subrange(off.root as int, off.root + 32) == byte_vals(root)
    &&& pv.subrange(off.index_bits as int, off.index_bits + 20) == index_bit_vals(
        index,
        siblings.len() as int,
    )
    &&& pv.subrange(off.siblings as int, off.siblings + 640) == padded_digest_vals(siblings)
    &&& pv.subrange(off.layers as int, off.layers + 640) == padded_digest_vals(layers)
}

/// The digest that a claimed path continues from at level `l`.
pub open spec fn claimed_prev(leaf: Seq<u8>, layers: Seq<[u8; 32]>, l: int) -> Seq<u8> {
    if l == 0 {
        leaf
    } else {
        layers[l - 1]@
    }
}

/// The message of a segment of a claimed path.
pub open spec fn claimed_seg(
    msg: Seq<u8>,
    leaf: Seq<u8>,
    index: int,
    siblings: Seq<[u8; 32]>,
    layers: Seq<[u8; 32]>,
    seg: int,
) -> Seq<u8> {
    if seg == 0 {
        msg
    } else {
        let d = claimed_prev(leaf, layers, seg - 1);
        let s = siblings[seg - 1]@;
        if nat_bit(index, (seg - 1) as nat) {
            s + d
        } else {
            d + s
        }
    }
}

/// What the public values claim of one level.
proof fn lemma_level_claimed(
    pv: Seq<int>,
    off: PathOffsets,
    msg: Seq<u8>,
    leaf: Seq<u8>,
    root: Seq<u8>,
    index: int,
    siblings: Seq<[u8; 32]>,
    layers: Seq<[u8; 32]>,
    l: int,
)
    requires
        path_claimed(pv, off, msg, leaf, root, index, siblings, layers),
        0 <= l < siblings.len(),
    ensures
        pv[off.index_bits + l] == fbool(nat_bit(index, l as nat)),
        prev_digest(pv, off, l) == byte_vals(claimed_prev(leaf, layers, l)),
        pv.subrange(off.siblings + 32 * l, off.siblings + 32 * (l + 1)) == byte_vals(siblings[l]@),
        pv.subrange(off.layers + 32 * l, off.layers + 32 * (l + 1)) == byte_vals(layers[l]@),
{
    let bits = pv.subrange(off.index_bits as int, off.index_bits + 20);
    assert(pv[off.index_bits + l] == bits[l]);
    let ls = pv.subrange(off.layers as int, off.layers + 640);
    let ss = pv.subrange(off.siblings as int, off.siblings + 640);
    let a = pv.subrange(off.siblings + 32 * l, off.siblings + 32 * (l + 1));
    assert forall|i: int| 0 <= i < 32 implies #[trigger] a[i] == siblings[l]@[i] by {
        assert(a[i] == ss[32 * l + i]);
        assert((32 * l + i) / 32 == l && (32 * l + i) % 32 == i);
    }
    assert(a =~= byte_vals(siblings[l]@));
    let b = pv.subrange(off.layers + 32 * l, off.layers + 32 * (l + 1));
    assert forall|i: int| 0 <= i < 32 implies #[trigger] b[i] == layers[l]@[i] by {
        assert(b[i] == ls[32 * l + i]);
        assert((32 * l + i) / 32 == l && (32 * l + i) % 32 == i);
    }
    assert(b =~= byte_vals(layers[l]@));
    if l > 0 {
        let k = l - 1;
        let c = prev_digest(pv, off, l);
        assert forall|i: int| 0 <= i < 32 implies #[trigger] c[i] == layers[k]@[i] by {
            assert(c[i] == ls[32 * k + i]);
            assert((32 * k + i) / 32 == k && (32 * k + i) % 32 == i);
        }
        assert(c =~= byte_vals(layers[k]@));
    }
}

/// The byte that a level absorbs at each place is the message's.
proof fn lemma_ordered_half(bit: bool, d: Seq<u8>, sib: Seq<u8>, j: int)
    requires
        d.len() == 32,
        sib.len() == 32,
        0 <= j < 64,
    ensures
        ordered_half(fbool(bit), byte_vals(d), byte_vals(sib), j) == (if bit {
            sib + d
        } else {
            d + sib
        })[j / 2 + 32 * (j % 2)],
{
    let p = byte_vals(d)[j / 2];
    let q = byte_vals(sib)[j / 2];
    assert(fsub(1, 1) == 0 && fsub(1, 0) == 1);
    assert(0 * p == 0 && 0 * q == 0 && 1 * p == p && 1 * q == q);
    if bit {
        assert(ordered_half(1, byte_vals(d), byte_vals(sib), j) == (if j % 2 == 0 {
            q
        } else {
            p
        }));
    } else {
        assert(ordered_half(0, byte_vals(d), byte_vals(sib), j) == (if j % 2 == 0 {
            p
        } else {
            q
        }));
    }
}

/// What a satisfied start of a level says of the row.
proof fn lemma_layer_start_parts(
    s: Seq<u64>,
    d: Seq<u8>,
    sib: Seq<u8>,
    bit: bool,
    live: bool,
    r: int,
    block: Seq<int>,
)
    requires
        s.len() == 25,
        d.len() == 32,
        sib.len() == 32,
        0 <= r < 32,
        block == first_block(
            byte_vals(
                if bit {
                    sib + d
                } else {
                    d + sib
                },
            ),
            0,
            64,
        ),
        all_zero(
            layer_start_constraints(
                bit_vals(state_bits(s)),
                fbool(bit),
                byte_vals(d),
                byte_vals(sib),
                fbool(live),
                r,
                1,
            ),
        ),
    ensures
        live,
        r == 0,
        forall|i: int| 0 <= i < 136 ==> #[trigger] state_bytes(s)[i] == block[i],
        forall|i: int| 1088 <= i < 1600 ==> !(#[trigger] state_bits(s)[i]),
{
    reveal(layer_start_constraints);
    let m = if bit {
        sib + d
    } else {
        d + sib
    };
    let a = bit_vals(state_bits(s));
    let prev = byte_vals(d);
    let other = byte_vals(sib);
    let x = Seq::new(
        64,
        |j: int|
            fmul(
                1,
                fsub(
                    packed_byte(a, j / 2 + 32 * (j % 2)),
                    ordered_half(fbool(bit), prev, other, j),
                ),
            ),
    );
    let y = bytes_constraints(a, 64, compress_pad(), 1);
    let cap = a.subrange(1088, 1600);
    let z = zero_constraints(cap, 1);
    let e = seq![fmul(1, fsub(fbool(live), 1)), fmul(1, r)];
    lemma_all_zero_concat(x, y);
    lemma_all_zero_concat(x + y, z);
    lemma_all_zero_concat(x + y + z, e);
    assert(e[0] == 0 && e[1] == 0);
    assert forall|i: int| 0 <= i < 136 implies #[trigger] state_bytes(s)[i] == block[i] by {
        lemma_packed_byte(s, i);
        if i < 64 {
            let j = if i < 32 {
                2 * i
            } else {
                2 * (i - 32) + 1
            };
            assert(j / 2 + 32 * (j % 2) == i);
            assert(x[j] == 0);
            lemma_ordered_half(bit, d, sib, j);
            assert(block[i] == m[i]);
        } else {
            assert(y[i - 64] == 0);
            lemma_packed_byte(s, 64 + (i - 64));
            assert(block[i] == compress_pad()[i - 64]);
        }
    }
    assert forall|i: int| 1088 <= i < 1600 implies !(#[trigger] state_bits(s)[i]) by {
        assert(z[i - 1088] == 0);
        assert(cap[i - 1088] == fbool(state_bits(s)[i]));
    }
}

/// A row with the bytes of a starting row is that row.
proof fn lemma_started(s: Seq<u64>, t: Seq<u64>, block: Seq<int>)
    requires
        s.len() == 25,
        t.len() == 25,
        forall|i: int| 0 <= i < 136 ==> #[trigger] state_bytes(s)[i] == block[i],
        forall|i: int| 1088 <= i < 1600 ==> !(#[trigger] state_bits(s)[i]),
        starts_with(t, block),
    ensures
        s == t,
{
    assert forall|i: int| 0 <= i < 136 implies #[trigger] state_bytes(s)[i] == state_bytes(t)[i] by {
        assert(block[i] == state_bytes(t)[i]);
    }
    assert forall|i: int| 1088 <= i < 1600 implies #[trigger] state_bits(s)[i] == state_bits(t)[i] by {
        let l = i / 64;
        lemma_zero_lane(i % 64);
        assert(t[l] == 0);
    }
    lemma_same_state(s, t);
}

/// A row that passes the start of a level is the starting row of its message.
proof fn lemma_layer_start_exact(
    s: Seq<u64>,
    d: Seq<u8>,
    sib: Seq<u8>,
    bit: bool,
    live: bool,
    r: int,
)
    requires
        s.len() == 25,
        d.len() == 32,
        sib.len() == 32,
        0 <= r < 32,
        all_zero(
            layer_start_constraints(
                bit_vals(state_bits(s)),
                fbool(bit),
                byte_vals(d),
                byte_vals(sib),
                fbool(live),
                r,
                1,
            ),
        ),
    ensures
        live,
        r == 0,
        s == perm_input(
            if bit {
                sib + d
            } else {
                d + sib
            },
            0,
        ),
{
    let m = if bit {
        sib + d
    } else {
        d + sib
    };
    let block = first_block(byte_vals(m), 0, 64);
    lemma_layer_start_parts(s, d, sib, bit, live, r, block);
    lemma_first_block(m, byte_vals(m), 0);
    lemma_started(s, perm_input(m, 0), block);
}

/// The parts of satisfied path constraints.
proof fn lemma_path_parts(
    pv: Seq<int>,
    off: PathOffsets,
    len: int,
    depth: nat,
    c: SegmentRow,
    n: SegmentRow,
    trans: bool,
    same: bool,
)
    requires
        all_zero(
            path_constraints(
                row_cells(c, n),
                pv,
                off,
                len,
                depth,
                row_selectors(c, n, trans, same, true, depth),
            ),
        ),
    ensures
        ({
            let k = row_cells(c, n);
            let s = row_selectors(c, n, trans, same, true, depth);
            &&& all_zero(
                start_constraints(
                    k.state_c,
                    first_block(pv, off.msg as int, len),
                    k.live,
                    k.round_c,
                    s.leaf_start,
                ),
            )
            &&& len > 136 ==> all_zero(
                second_block_constraints(
                    k.state_c,
                    k.state_n,
                    k.rc,
                    pv,
                    off.msg as int,
                    len,
                    k.round_n,
                    s.second_block,
                ),
            )
            &&& all_zero(
                bytes_constraints(
                    k.state_c,
                    0,
                    pv.subrange(off.leaf_digest as int, off.leaf_digest as int + 32),
                    s.leaf_idle,
                ),
            )
            &&& forall|l: int|
                0 <= l < depth ==> all_zero(#[trigger] layer_start_block(k, pv, off, s, l))
            &&& forall|l: int|
                0 <= l < depth ==> all_zero(#[trigger] layer_idle_block(k, pv, off, s, l))
            &&& all_zero(
                Seq::new(
                    32,
                    |i: int| fsub(pv[off.layers + 32 * (depth - 1) + i], pv[off.root + i]),
                ),
            )
        }),
{
    reveal(path_constraints);
    let k = row_cells(c, n);
    let s = row_selectors(c, n, trans, same, true, depth);
    let c1 = start_constraints(
        k.state_c,
        first_block(pv, off.msg as int, len),
        k.live,
        k.round_c,
        s.leaf_start,
    );
    let c2 = if len > 136 {
        second_block_constraints(
            k.state_c,
            k.state_n,
            k.rc,
            pv,
            off.msg as int,
            len,
            k.round_n,
            s.second_block,
        )
    } else {
        Seq::empty()
    };
    let fs = |l: int| layer_start_block(k, pv, off, s, l);
    let fi = |l: int| layer_idle_block(k, pv, off, s, l);
    let c3 = flat(depth, fs);
    let c4 = bytes_constraints(
        k.state_c,
        0,
        pv.subrange(off.leaf_digest as int, off.leaf_digest as int + 32),
        s.leaf_idle,
    );
    let c5 = flat(depth, fi);
    let c6 = Seq::new(
        32,
        |i: int| fsub(pv[off.layers + 32 * (depth - 1) + i], pv[off.root + i]),
    );
    lemma_all_zero_concat(c1, c2);
    lemma_all_zero_concat(c1 + c2, c3);
    lemma_all_zero_concat(c1 + c2 + c3, c4);
    lemma_all_zero_concat(c1 + c2 + c3 + c4, c5);
    lemma_all_zero_concat(c1 + c2 + c3 + c4 + c5, c6);
    lemma_flat_all_zero(depth, fs);
    lemma_flat_all_zero(depth, fi);
    assert forall|l: int| 0 <= l < depth implies all_zero(
        #[trigger] layer_start_block(k, pv, off, s, l),
    ) by {
        assert(all_zero(fs(l)));
    }
    assert forall|l: int| 0 <= l < depth implies all_zero(
        #[trigger] layer_idle_block(k, pv, off, s, l),
    ) by {
        assert(all_zero(fi(l)));
    }
}

/// An idle row with these bytes holds the digest.
proof fn lemma_idle_exact(s: Seq<u64>, d: Seq<u8>)
    requires
        s.len() == 25,
        d.len() == 32,
        all_zero(bytes_constraints(bit_vals(state_bits(s)), 0, byte_vals(d), 1)),
    ensures
        state_bytes(s).take(32) == d,
{
    let c = bytes_constraints(bit_vals(state_bits(s)), 0, byte_vals(d), 1);
    assert forall|i: int| 0 <= i < 32 implies #[trigger] state_bytes(s).take(32)[i] == d[i] by {
        assert(c[i] == 0);
        lemma_packed_byte(s, 0 + i);
    }
    assert(state_bytes(s).take(32) =~= d);
}

/// What two rows of one segment say of a claimed path, the second not a starting row.
pub open spec fn pair_ok(
    c: SegmentRow,
    n: SegmentRow,
    pv: Seq<int>,
    off: PathOffsets,
    len: int,
    depth: nat,
) -> bool {
    &&& c.valid()
    &&& n.shape()
    &&& rounds_to(c, n)
    &&& all_zero(
        path_constraints(
            row_cells(c, n),
            pv,
            off,
            len,
            depth,
            row_selectors(c, n, true, true, true, depth),
        ),
    )
}

/// Rows `k` and `k + 1` are such a pair.
pub open spec fn pair_at(
    rows: Seq<SegmentRow>,
    k: int,
    pv: Seq<int>,
    off: PathOffsets,
    len: int,
    depth: nat,
) -> bool {
    pair_ok(rows[k], rows[k + 1], pv, off, len, depth)
}

/// A segment's first row is the starting row of its claimed message.
proof fn lemma_seg_start(
    c: SegmentRow,
    n: SegmentRow,
    pv: Seq<int>,
    off: PathOffsets,
    msg: Seq<u8>,
    leaf: Seq<u8>,
    root: Seq<u8>,
    index: int,
    siblings: Seq<[u8; 32]>,
    layers: Seq<[u8; 32]>,
)
    requires
        path_claimed(pv, off, msg, leaf, root, index, siblings, layers),
        msg.len() != 136,
        msg.len() < 272,
        pair_ok(c, n, pv, off, msg.len() as int, siblings.len()),
        c.start,
        0 <= c.seg <= siblings.len(),
    ensures
        c.round == 0,
        c.state == perm_input(claimed_seg(msg, leaf, index, siblings, layers, c.seg), 0),
{
    let len = msg.len() as int;
    let depth = siblings.len();
    lemma_path_parts(pv, off, len, depth, c, n, true, true);
    let k = row_cells(c, n);
    let s = row_selectors(c, n, true, true, true, depth);
    if c.seg == 0 {
        let base = off.msg as int;
        let listed = pv.subrange(base, base + len);
        assert forall|i: int| 0 <= i < msg.len() implies #[trigger] msg[i] == pv[base + i] by {
            assert(listed[i] == msg[i]);
        }
        lemma_first_block(msg, pv, base);
        lemma_start_exact(
            c.state,
            perm_input(msg, 0),
            first_block(pv, base, len),
            c.live,
            c.round,
        );
    } else {
        let l = c.seg - 1;
        lemma_level_claimed(pv, off, msg, leaf, root, index, siblings, layers, l);
        assert(all_zero(layer_start_block(k, pv, off, s, l)));
        assert(s.layer_start[l] == 1);
        lemma_layer_start_exact(
            c.state,
            claimed_prev(leaf, layers, l),
            siblings[l]@,
            nat_bit(index, l as nat),
            c.live,
            c.round,
        );
    }
}

/// A segment's idle row holds its claimed digest.
proof fn lemma_seg_idle(
    c: SegmentRow,
    n: SegmentRow,
    pv: Seq<int>,
    off: PathOffsets,
    msg: Seq<u8>,
    leaf: Seq<u8>,
    root: Seq<u8>,
    index: int,
    siblings: Seq<[u8; 32]>,
    layers: Seq<[u8; 32]>,
)
    requires
        path_claimed(pv, off, msg, leaf, root, index, siblings, layers),
        pair_ok(c, n, pv, off, msg.len() as int, siblings.len()),
        !c.live,
        0 <= c.seg <= siblings.len(),
    ensures
        state_bytes(c.state).take(32) == claimed_prev(leaf, layers, c.seg),
{
    let len = msg.len() as int;
    let depth = siblings.len();
    lemma_path_parts(pv, off, len, depth, c, n, true, true);
    let k = row_cells(c, n);
    let s = row_selectors(c, n, true, true, true, depth);
    if c.seg == 0 {
        lemma_idle_exact(c.state, leaf);
    } else {
        let l = c.seg - 1;
        lemma_level_claimed(pv, off, msg, leaf, root, index, siblings, layers, l);
        assert(all_zero(layer_idle_block(k, pv, off, s, l)));
        assert(s.layer_idle[l] == 1);
        lemma_idle_exact(c.state, layers[l]@);
    }
}

/// The rows of one segment of a claimed path: flags laid out for a message of `mlen` bytes, and
/// every row pair satisfied.
pub open spec fn segment_ok(
    q: Seq<SegmentRow>,
    seg: int,
    mlen: nat,
    pv: Seq<int>,
    off: PathOffsets,
    len: int,
    depth: nat,
) -> bool {
    &&& q.len() == sponge_rows(mlen)
    &&& forall|j: int|
        0 <= j < q.len() ==> (#[trigger] q[j]).seg == seg && q[j].start == (j == 0) && q[j].live
            == (j < 24 * (mlen as int / 136 + 1))
    &&& forall|j: int| 0 <= j < q.len() - 1 ==> #[trigger] pair_at(q, j, pv, off, len, depth)
}

/// The live rows of a segment are the sponge of its claimed message.
proof fn lemma_seg_rows(
    q: Seq<SegmentRow>,
    seg: int,
    pv: Seq<int>,
    off: PathOffsets,
    msg: Seq<u8>,
    leaf: Seq<u8>,
    root: Seq<u8>,
    index: int,
    siblings: Seq<[u8; 32]>,
    layers: Seq<[u8; 32]>,
    i: int,
)
    requires
        path_claimed(pv, off, msg, leaf, root, index, siblings, layers),
        msg.len() != 136,
        msg.len() < 272,
        0 <= seg <= siblings.len(),
        ({
            let m = claimed_seg(msg, leaf, index, siblings, layers, seg);
            &&& segment_ok(q, seg, m.len(), pv, off, msg.len() as int, siblings.len())
            &&& 0 <= i < 24 * (m.len() as int / 136 + 1)
        }),
    ensures
        ({
            let m = claimed_seg(msg, leaf, index, siblings, layers, seg);
            q[i].state == witness_state(m, i) && q[i].round == i % 24
        }),
    decreases i,
{
    let m = claimed_seg(msg, leaf, index, siblings, layers, seg);
    assert(m.len() == (if seg == 0 {
        msg.len()
    } else {
        64
    }));
    lemma_sponge_rows(m.len());
    lemma_first_block(m, byte_vals(m), 0);
    if m.len() > 136 {
        lemma_second_block(m, byte_vals(m), 0);
    }
    assert(pair_at(q, 0, pv, off, msg.len() as int, siblings.len()));
    if i == 0 {
        lemma_seg_start(q[0], q[1], pv, off, msg, leaf, root, index, siblings, layers);
        assert(rounds(perm_input(m, 0), 0) == perm_input(m, 0));
    } else {
        let k = i - 1;
        lemma_seg_rows(q, seg, pv, off, msg, leaf, root, index, siblings, layers, k);
        lemma_states(m, k);
        assert(pair_at(q, k, pv, off, msg.len() as int, siblings.len()));
        assert(q[i].live && q[k].live);
        if k % 24 == 23 {
            assert(k == 23 && seg == 0);
            assert(pair_at(q, i, pv, off, msg.len() as int, siblings.len()));
            lemma_wrap(q[k], q[i], pv, off, msg, leaf, root, index, siblings, layers);
        }
    }
}

/// The row after the first permutation of a two-block leaf absorbs the second block.
proof fn lemma_wrap(
    c: SegmentRow,
    n: SegmentRow,
    pv: Seq<int>,
    off: PathOffsets,
    msg: Seq<u8>,
    leaf: Seq<u8>,
    root: Seq<u8>,
    index: int,
    siblings: Seq<[u8; 32]>,
    layers: Seq<[u8; 32]>,
)
    requires
        path_claimed(pv, off, msg, leaf, root, index, siblings, layers),
        136 < msg.len() < 272,
        pair_ok(c, n, pv, off, msg.len() as int, siblings.len()),
        n.valid(),
        c.live && n.live,
        c.seg == 0,
        c.round == 23,
        c.state == witness_state(msg, 23),
    ensures
        n.round == 0,
        n.state == perm_input(msg, 1),
{
    let len = msg.len() as int;
    let base = off.msg as int;
    assert(n.round == 0);
    lemma_path_parts(pv, off, len, siblings.len(), c, n, true, true);
    let listed = pv.subrange(base, base + len);
    assert forall|i: int| 0 <= i < msg.len() implies #[trigger] msg[i] == pv[base + i] by {
        assert(listed[i] == msg[i]);
    }
    lemma_first_block(msg, pv, base);
    lemma_second_block(msg, pv, base);
    lemma_states(msg, 23);
    lemma_second_exact(c.state, n.state, perm_input(msg, 1), RC@[23], pv, base, len, n.round);
}

/// A segment yields the digest of its claimed message.
proof fn lemma_seg_digest(
    q: Seq<SegmentRow>,
    seg: int,
    pv: Seq<int>,
    off: PathOffsets,
    msg: Seq<u8>,
    leaf: Seq<u8>,
    root: Seq<u8>,
    index: int,
    siblings: Seq<[u8; 32]>,
    layers: Seq<[u8; 32]>,
)
    requires
        path_claimed(pv, off, msg, leaf, root, index, siblings, layers),
        msg.len() != 136,
        msg.len() < 272,
        0 <= seg <= siblings.len(),
        segment_ok(
            q,
            seg,
            claimed_seg(msg, leaf, index, siblings, layers, seg).len(),
            pv,
            off,
            msg.len() as int,
            siblings.len(),
        ),
    ensures
        claimed_prev(leaf, layers, seg) == keccak256_spec(
            claimed_seg(msg, leaf, index, siblings, layers, seg),
        ),
{
    reveal(keccak256_spec);
    let m = claimed_seg(msg, leaf, index, siblings, layers, seg);
    assert(m.len() == (if seg == 0 {
        msg.len()
    } else {
        64
    }));
    let n = 24 * (m.len() as int / 136 + 1);
    lemma_sponge_rows(m.len());
    lemma_first_block(m, byte_vals(m), 0);
    if m.len() > 136 {
        lemma_second_block(m, byte_vals(m), 0);
    }
    let k = n - 1;
    lemma_seg_rows(q, seg, pv, off, msg, leaf, root, index, siblings, layers, k);
    lemma_states(m, k);
    assert(pair_at(q, k, pv, off, msg.len() as int, siblings.len()));
    assert(q[k].live && !q[n].live);
    assert(q[n].state == final_state(m));
    assert(pair_at(q, n, pv, off, msg.len() as int, siblings.len()));
    lemma_seg_idle(q[n], q[n + 1], pv, off, msg, leaf, root, index, siblings, layers);
}

/// The length of the message of a segment.
pub open spec fn seg_len(len: nat, seg: int) -> nat {
    if seg == 0 {
        len
    } else {
        64
    }
}

/// All segments of a claimed path are satisfied.
pub open spec fn segments_ok(
    segs: spec_fn(int) -> Seq<SegmentRow>,
    pv: Seq<int>,
    off: PathOffsets,
    len: nat,
    depth: nat,
) -> bool {
    forall|seg: int|
        0 <= seg <= depth ==> segment_ok(
            #[trigger] segs(seg),
            seg,
            seg_len(len, seg),
            pv,
            off,
            len as int,
            depth,
        )
}

proof fn lemma_claimed_layers(
    segs: spec_fn(int) -> Seq<SegmentRow>,
    pv: Seq<int>,
    off: PathOffsets,
    msg: Seq<u8>,
    leaf: Seq<u8>,
    root: Seq<u8>,
    index: int,
    siblings: Seq<[u8; 32]>,
    layers: Seq<[u8; 32]>,
    n: nat,
)
    requires
        path_claimed(pv, off, msg, leaf, root, index, siblings, layers),
        msg.len() != 136,
        msg.len() < 272,
        segments_ok(segs, pv, off, msg.len(), siblings.len()),
        n <= siblings.len(),
    ensures
        claimed_prev(leaf, layers, n as int) == path_digest(
            keccak_pair(),
            leaf,
            siblings,
            index,
            n,
        ),
    decreases n,
{
    if n > 0 {
        let l = n - 1;
        lemma_claimed_layers(
            segs,
            pv,
            off,
            msg,
            leaf,
            root,
            index,
            siblings,
            layers,
            l as nat,
        );
        assert(segment_ok(
            segs(n as int),
            n as int,
            seg_len(msg.len(), n as int),
            pv,
            off,
            msg.len() as int,
            siblings.len(),
        ));
        assert(claimed_seg(msg, leaf, index, siblings, layers, n as int).len() == 64);
        lemma_seg_digest(
            segs(n as int),
            n as int,
            pv,
            off,
            msg,
            leaf,
            root,
            index,
            siblings,
            layers,
        );
    }
}

/// A claimed path whose segments are all satisfied is the path of its message: the leaf digest,
/// the level digests and the root are the hashes they claim to be.
pub proof fn lemma_claimed_path(
    segs: spec_fn(int) -> Seq<SegmentRow>,
    pv: Seq<int>,
    off: PathOffsets,
    msg: Seq<u8>,
    leaf: Seq<u8>,
    root: Seq<u8>,
    index: int,
    siblings: Seq<[u8; 32]>,
    layers: Seq<[u8; 32]>,
)
    requires
        path_claimed(pv, off, msg, leaf, root, index, siblings, layers),
        msg.len() != 136,
        msg.len() < 272,
        segments_ok(segs, pv, off, msg.len(), siblings.len()),
    ensures
        leaf == keccak256_spec(msg),
        is_path_layers(layers, keccak_pair(), leaf, siblings, index),
        root == path_root(keccak_pair(), leaf, siblings, index),
{
    let depth = siblings.len();
    let q = segs(0);
    assert(segment_ok(q, 0, seg_len(msg.len(), 0), pv, off, msg.len() as int, depth));
    lemma_seg_digest(q, 0, pv, off, msg, leaf, root, index, siblings, layers);
    assert forall|i: int| 0 <= i < layers.len() implies (#[trigger] layers[i])@ == path_digest(
        keccak_pair(),
        leaf,
        siblings,
        index,
        (i + 1) as nat,
    ) by {
        lemma_claimed_layers(
            segs,
            pv,
            off,
            msg,
            leaf,
            root,
            index,
            siblings,
            layers,
            (i + 1) as nat,
        );
    }
    lemma_sponge_rows(msg.len());
    assert(pair_at(q, 0, pv, off, msg.len() as int, depth));
    lemma_path_parts(pv, off, msg.len() as int, depth, q[0], q[1], true, true);
    let l = depth - 1;
    lemma_level_claimed(pv, off, msg, leaf, root, index, siblings, layers, l);
    let last = pv.subrange(off.layers + 32 * l, off.layers + 32 * (l + 1));
    let r = pv.subrange(off.root as int, off.root + 32);
    let c = Seq::new(
        32,
        |i: int| fsub(pv[off.layers + 32 * (depth - 1) + i], pv[off.root + i]),
    );
    assert(all_zero(c));
    assert forall|i: int| 0 <= i < 32 implies #[trigger] root[i] == layers[l]@[i] by {
        assert(c[i] == 0);
        assert(pv[off.layers + 32 * (depth - 1) + i] == last[i]);
        assert(pv[off.root + i] == r[i]);
        assert(last[i] == layers[l]@[i] && r[i] == root[i]);
    }
    assert(root =~= layers[l]@);
}

} // verus!
