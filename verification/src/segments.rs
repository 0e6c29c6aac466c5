//! Traces made of sponge segments, and the public values of the paths they prove.
use vstd::prelude::*;

use crate::bits::nat_bit;
use crate::field::{fbool, vals, Val};
use crate::keccak256_air::{
    build_sponge_matrix, is_sponge_trace, sponge_rows, sponge_trace_row, SPONGE_WIDTH,
};
use crate::keccak_f_native::{join_digests, keccak256_compress};
use crate::keccak_merkle_air::layer_msg;
use crate::matrix::{byte_vals, lemma_append_row, push_bools, push_bytes, RowMajorMatrix};
use crate::merkle::{is_path_layers, path_digest};
use crate::merkle_keccak::keccak_pair;

verus! {

/// The trace consists of the listed rows.
pub open spec fn rows_are(m: RowMajorMatrix, rows: Seq<Seq<int>>) -> bool {
    &&& m.values@.len() == rows.len() * m.width
    &&& forall|k: int| 0 <= k < rows.len() ==> #[trigger] m.row(k) == rows[k]
}

/// Row `j` of the segment that hashes `msg`: the sponge row, the start flag, the meta bits.
pub open spec fn segment_row(msg: Seq<u8>, meta: Seq<int>, j: int) -> Seq<int> {
    sponge_trace_row(msg, j).push(fbool(j == 0)) + meta
}

/// All rows of a segment.
pub open spec fn segment_rows(msg: Seq<u8>, meta: Seq<int>) -> Seq<Seq<int>> {
    Seq::new(sponge_rows(msg.len()) as nat, |j: int| segment_row(msg, meta, j))
}

/// The low `n` bits of a number, as residues.
pub open spec fn number_bits(x: int, n: nat) -> Seq<int> {
    Seq::new(n, |k: int| fbool(nat_bit(x, k as nat)))
}

/// The rows of a path: the leaf segment, then one segment per level.
pub open spec fn path_rows(leaf_msg: Seq<u8>, msgs: Seq<Seq<u8>>, n: nat, tail: Seq<int>) -> Seq<
    Seq<int>,
>
    decreases n,
{
    if n == 0 {
        segment_rows(leaf_msg, number_bits(0, 5) + tail)
    } else {
        path_rows(leaf_msg, msgs, (n - 1) as nat, tail) + segment_rows(
            msgs[n - 1],
            number_bits(n as int, 5) + tail,
        )
    }
}

/// The contents of a list of messages.
pub open spec fn msg_views(msgs: Seq<[u8; 64]>) -> Seq<Seq<u8>> {
    Seq::new(msgs.len(), |i: int| msgs[i]@)
}

/// The low `n` bits of a number.
pub fn low_bits(x: usize, n: usize) -> (r: Vec<bool>)
    ensures
        r@.len() == n,
        forall|k: int| 0 <= k < n ==> #[trigger] r@[k] == nat_bit(x as int, k as nat),
{
    let mut r: Vec<bool> = Vec::new();
    let mut y: usize = x;
    let mut i: usize = 0;
    while i < n
        invariant
            i <= n,
            r@.len() == i,
            forall|k: int| 0 <= k < i ==> #[trigger] r@[k] == nat_bit(x as int, k as nat),
            forall|j: nat| #[trigger] nat_bit(y as int, j) == nat_bit(x as int, i as nat + j),
        decreases n - i,
    {
        proof {
            assert(nat_bit(y as int, 0) == nat_bit(x as int, i as nat + 0));
        }
        r.push(y % 2 == 1);
        let ghost y0: usize = y;
        y = y / 2;
        proof {
            assert forall|j: nat| #[trigger]
                nat_bit(y as int, j) == nat_bit(x as int, (i + 1) as nat + j) by {
                assert(nat_bit(y0 as int, j + 1) == nat_bit(x as int, i as nat + (j + 1)));
            }
        }
        i += 1;
    }
    r
}

/// Appends the segment that hashes `msg`.
pub(crate) fn append_sponge_segment(
    m: &mut RowMajorMatrix,
    msg: &[u8],
    meta: &[bool],
    Ghost(rows): Ghost<Seq<Seq<int>>>,
)
    requires
        old(m).width == SPONGE_WIDTH + 1 + meta@.len(),
        rows_are(*old(m), rows),
    ensures
        final(m).width == old(m).width,
        rows_are(
            *final(m),
            rows + segment_rows(msg@, Seq::new(meta@.len(), |k: int| fbool(meta@[k]))),
        ),
{
    let ghost mv = Seq::new(meta@.len(), |k: int| fbool(meta@[k]));
    let ghost want = segment_rows(msg@, mv);
    let sponge = build_sponge_matrix(msg);
    let height: usize = sponge.height();
    let mut r: usize = 0;
    proof {
        assert(rows + want.take(0) =~= rows);
    }
    while r < height
        invariant
            r <= height,
            is_sponge_trace(sponge, msg@),
            height == sponge_rows(msg@.len()),
            mv == Seq::new(meta@.len(), |k: int| fbool(meta@[k])),
            want == segment_rows(msg@, mv),
            m.width == old(m).width,
            m.width == SPONGE_WIDTH + 1 + meta@.len(),
            rows_are(*m, rows + want.take(r as int)),
        decreases height - r,
    {
        let ghost before = *m;
        let cells = sponge.row_cells(r);
        push_all(&mut m.values, cells.as_slice());
        let start = [r == 0];
        push_bools(&mut m.values, vstd::array::array_as_slice(&start));
        push_bools(&mut m.values, meta);
        proof {
            let row = segment_row(msg@, mv, r as int);
            assert(sponge.row(r as int) == sponge_trace_row(msg@, r as int));
            assert(vals(m.values@) =~= vals(before.values@) + row);
            let n: int = (rows + want.take(r as int)).len() as int;
            lemma_append_row(before, *m, row, n);
            let all = rows + want.take(r + 1);
            assert(all =~= (rows + want.take(r as int)).push(row));
            assert forall|k: int| 0 <= k < all.len() implies #[trigger] m.row(k) == all[k] by {
                if k < n {
                    assert(m.row(k) == before.row(k));
                }
            }
        }
        r += 1;
    }
    proof {
        assert(want.take(r as int) =~= want);
    }
}

/// Appends field elements.
pub fn push_all(values: &mut Vec<Val>, cells: &[Val])
    ensures
        vals(final(values)@) == vals(old(values)@) + vals(cells@),
{
    let ghost base = vals(values@);
    let mut i: usize = 0;
    while i < cells.len()
        invariant
            i <= cells.len(),
            vals(values@) == base + vals(cells@).take(i as int),
        decreases cells.len() - i,
    {
        let ghost before = values@;
        values.push(cells[i]);
        proof {
            assert(vals(values@) =~= vals(before).push(cells@[i as int]@));
            assert(vals(values@) =~= base + vals(cells@).take(i + 1));
        }
        i += 1;
    }
    proof {
        assert(vals(cells@).take(i as int) =~= vals(cells@));
    }
}

/// Appends a path: the leaf segment, then one segment per level.
pub(crate) fn append_path(
    m: &mut RowMajorMatrix,
    leaf_msg: &[u8],
    msgs: &Vec<[u8; 64]>,
    tail: &Vec<bool>,
    Ghost(rows): Ghost<Seq<Seq<int>>>,
)
    requires
        old(m).width == SPONGE_WIDTH + 6 + tail@.len(),
        rows_are(*old(m), rows),
    ensures
        final(m).width == old(m).width,
        rows_are(
            *final(m),
            rows + path_rows(
                leaf_msg@,
                msg_views(msgs@),
                msgs@.len(),
                Seq::new(tail@.len(), |k: int| fbool(tail@[k])),
            ),
        ),
{
    let ghost tv = Seq::new(tail@.len(), |k: int| fbool(tail@[k]));
    let meta0 = segment_meta(0, tail);
    append_sponge_segment(m, leaf_msg, meta0.as_slice(), Ghost(rows));
    proof {
        assert(Seq::new(meta0@.len(), |k: int| fbool(meta0@[k])) =~= number_bits(0, 5) + tv);
    }
    let mut l: usize = 0;
    while l < msgs.len()
        invariant
            l <= msgs.len(),
            tv == Seq::new(tail@.len(), |k: int| fbool(tail@[k])),
            m.width == old(m).width,
            m.width == SPONGE_WIDTH + 6 + tail@.len(),
            rows_are(*m, rows + path_rows(leaf_msg@, msg_views(msgs@), l as nat, tv)),
        decreases msgs.len() - l,
    {
        let meta = segment_meta(l + 1, tail);
        let ghost done = rows + path_rows(leaf_msg@, msg_views(msgs@), l as nat, tv);
        append_sponge_segment(
            m,
            vstd::array::array_as_slice(&msgs[l]),
            meta.as_slice(),
            Ghost(done),
        );
        proof {
            let mv = Seq::new(meta@.len(), |k: int| fbool(meta@[k]));
            assert(mv =~= number_bits((l + 1) as int, 5) + tv);
            assert(done + segment_rows(msgs@[l as int]@, mv) =~= rows + path_rows(
                leaf_msg@,
                msg_views(msgs@),
                (l + 1) as nat,
                tv,
            ));
        }
        l += 1;
    }
}

fn segment_meta(seg: usize, tail: &Vec<bool>) -> (r: Vec<bool>)
    ensures
        r@.len() == 5 + tail@.len(),
        forall|k: int| 0 <= k < 5 ==> #[trigger] r@[k] == nat_bit(seg as int, k as nat),
        forall|k: int| 5 <= k < r@.len() ==> #[trigger] r@[k] == tail@[k - 5],
{
    let mut r = low_bits(seg, 5);
    let mut i: usize = 0;
    while i < tail.len()
        invariant
            i <= tail.len(),
            r@.len() == 5 + i,
            forall|k: int| 0 <= k < 5 ==> #[trigger] r@[k] == nat_bit(seg as int, k as nat),
            forall|k: int| 5 <= k < r@.len() ==> #[trigger] r@[k] == tail@[k - 5],
        decreases tail.len() - i,
    {
        r.push(tail[i]);
        i += 1;
    }
    r
}

/// The message hashed at each level of a Keccak path.
pub open spec fn layer_msgs(leaf: Seq<u8>, siblings: Seq<[u8; 32]>, index: int) -> Seq<Seq<u8>> {
    Seq::new(siblings.len(), |i: int| layer_msg(leaf, siblings, index, i))
}

/// The digests of a Keccak path after each sibling, and the messages they hash.
pub fn fold_path_keccak(leaf: [u8; 32], siblings: &[[u8; 32]], index: usize) -> (r: (
    Vec<[u8; 32]>,
    Vec<[u8; 64]>,
))
    ensures
        is_path_layers(r.0@, keccak_pair(), leaf@, siblings@, index as int),
        msg_views(r.1@) == layer_msgs(leaf@, siblings@, index as int),
{
    let mut layers: Vec<[u8; 32]> = Vec::new();
    let mut msgs: Vec<[u8; 64]> = Vec::new();
    let mut digest: [u8; 32] = leaf;
    let mut idx: usize = index;
    let mut i: usize = 0;
    while i < siblings.len()
        invariant
            i <= siblings.len(),
            layers@.len() == i,
            msgs@.len() == i,
            digest@ == path_digest(keccak_pair(), leaf@, siblings@, index as int, i as nat),
            forall|k: int|
                0 <= k < i ==> (#[trigger] layers@[k])@ == path_digest(
                    keccak_pair(),
                    leaf@,
                    siblings@,
                    index as int,
                    (k + 1) as nat,
                ),
            forall|k: int|
                0 <= k < i ==> (#[trigger] msgs@[k])@ == layer_msg(
                    leaf@,
                    siblings@,
                    index as int,
                    k,
                ),
            forall|j: nat| #[trigger] nat_bit(idx as int, j) == nat_bit(index as int, i as nat + j),
        decreases siblings.len() - i,
    {
        proof {
            assert(nat_bit(idx as int, 0) == nat_bit(index as int, i as nat + 0));
        }
        let sib: [u8; 32] = siblings[i];
        if idx % 2 == 0 {
            msgs.push(join_digests(&digest, &sib));
            digest = keccak256_compress(digest, sib);
        } else {
            msgs.push(join_digests(&sib, &digest));
            digest = keccak256_compress(sib, digest);
        }
        layers.push(digest);
        let ghost idx0: usize = idx;
        idx = idx / 2;
        proof {
            assert forall|j: nat| #[trigger]
                nat_bit(idx as int, j) == nat_bit(index as int, (i + 1) as nat + j) by {
                assert(nat_bit(idx0 as int, j + 1) == nat_bit(index as int, i as nat + (j + 1)));
            }
        }
        i += 1;
    }
    proof {
        assert(msg_views(msgs@) =~= layer_msgs(leaf@, siblings@, index as int));
    }
    (layers, msgs)
}

/// A number's low `depth` bits, filled up to twenty with zeros.
pub open spec fn index_bit_vals(index: int, depth: int) -> Seq<int> {
    Seq::new(20, |i: int| fbool(i < depth && nat_bit(index, i as nat)))
}

/// The bytes of a list of digests, filled up to twenty digests with zeros.
pub open spec fn padded_digest_vals(ds: Seq<[u8; 32]>) -> Seq<int> {
    Seq::new(
        640,
        |i: int|
            if i / 32 < ds.len() {
                ds[i / 32]@[i % 32] as int
            } else {
                0
            },
    )
}

/// The bytes of a Keccak path's level digests, filled up to twenty digests with zeros.
pub open spec fn padded_layer_vals(leaf: Seq<u8>, siblings: Seq<[u8; 32]>, index: int) -> Seq<int> {
    Seq::new(
        640,
        |i: int|
            if i / 32 < siblings.len() {
                path_digest(keccak_pair(), leaf, siblings, index, (i / 32 + 1) as nat)[i
                    % 32] as int
            } else {
                0
            },
    )
}

/// The level digests written out are those of the path.
pub proof fn lemma_padded_layers(
    layers: Seq<[u8; 32]>,
    leaf: Seq<u8>,
    siblings: Seq<[u8; 32]>,
    index: int,
)
    requires
        is_path_layers(layers, keccak_pair(), leaf, siblings, index),
    ensures
        padded_digest_vals(layers) == padded_layer_vals(leaf, siblings, index),
{
    assert forall|i: int| 0 <= i < 640 implies #[trigger] padded_digest_vals(layers)[i]
        == padded_layer_vals(leaf, siblings, index)[i] by {
        if i / 32 < siblings.len() {
            assert(layers[i / 32]@ == path_digest(
                keccak_pair(),
                leaf,
                siblings,
                index,
                (i / 32 + 1) as nat,
            ));
        }
    }
    assert(padded_digest_vals(layers) =~= padded_layer_vals(leaf, siblings, index));
}

/// Appends the index bits.
pub fn push_index_bits(values: &mut Vec<Val>, index: u32, depth: usize)
    requires
        depth <= 20,
    ensures
        vals(final(values)@) == vals(old(values)@) + index_bit_vals(index as int, depth as int),
{
    let mut bits = low_bits(index as usize, depth);
    while bits.len() < 20
        invariant
            depth <= bits@.len() <= 20,
            forall|k: int|
                0 <= k < bits@.len() ==> #[trigger] bits@[k] == (k < depth && nat_bit(
                    index as int,
                    k as nat,
                )),
        decreases 20 - bits@.len(),
    {
        bits.push(false);
    }
    push_bools(values, bits.as_slice());
    proof {
        assert(Seq::new(bits@.len(), |i: int| fbool(bits@[i])) =~= index_bit_vals(
            index as int,
            depth as int,
        ));
    }
}

/// Appends a list of at most twenty digests and fills up with zeros.
pub fn push_padded_digests(values: &mut Vec<Val>, ds: &[[u8; 32]])
    requires
        ds@.len() <= 20,
    ensures
        vals(final(values)@) == vals(old(values)@) + padded_digest_vals(ds@),
{
    let ghost base = vals(values@);
    let ghost want = padded_digest_vals(ds@);
    let zero = [0u8; 32];
    let mut i: usize = 0;
    while i < 20
        invariant
            i <= 20,
            ds@.len() <= 20,
            want == padded_digest_vals(ds@),
            zero@ == Seq::new(32, |k: int| 0u8),
            vals(values@) == base + want.take(32 * i),
        decreases 20 - i,
    {
        if i < ds.len() {
            push_bytes(values, vstd::array::array_as_slice(&ds[i]));
        } else {
            push_bytes(values, vstd::array::array_as_slice(&zero));
        }
        proof {
            let d: Seq<int> = if i < ds@.len() {
                byte_vals(ds@[i as int]@)
            } else {
                byte_vals(zero@)
            };
            let a = want.take(32 * i);
            let b = want.take(32 * (i + 1));
            assert forall|j: int| 0 <= j < b.len() implies #[trigger] b[j] == (a + d)[j] by {
                if j >= 32 * i {
                    assert(j / 32 == i);
                }
            }
            assert(b =~= a + d);
            assert(vals(values@) =~= base + b);
        }
        i += 1;
    }
    proof {
        assert(want.take(640) =~= want);
    }
}

} // verus!
