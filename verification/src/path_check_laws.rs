//! What a checked path shows: its row hashes up to the root, level by level, at its position.
use vstd::prelude::*;

use crate::batch_path::{
    indices, joint_row, lemma_tallest_first, no_later, tallest, tallest_first, Batch,
    FriChalBatchPathProof,
};
use crate::bits::{
    exp2, is_pow2, lemma_exp2_positive, lemma_pow2_is_exp2, lemma_shr_divides, lemma_shr_step,
    nat_bit, shr,
};
use crate::fri_mmcs_path::{
    is_path_record, path_fault, path_record_valid, FriMmcsPathProof,
};
use crate::keccak_f_native::row_bytes;
use crate::merkle::{path_digest, path_root};
use crate::merkle_poseidon2::{
    digest_limbs, poseidon_compress, poseidon_leaf, poseidon_pair, poseidon_sponge,
};
use crate::path_strip::path_digests_valid;

verus! {

/// The digest of a row.
pub open spec fn row_digest(row: Seq<int>) -> Seq<u8> {
    row_bytes(poseidon_sponge(row))
}

/// The digest of two digests, left and right.
pub open spec fn digest_of(l: Seq<u8>, r: Seq<u8>) -> Seq<u8> {
    row_bytes(poseidon_compress(digest_limbs(l), digest_limbs(r)))
}

/// A digest beside its sibling: the side is the parity of the position.
pub open spec fn beside(position: int, d: Seq<u8>, sibling: Seq<u8>) -> Seq<u8> {
    if position % 2 == 0 {
        digest_of(d, sibling)
    } else {
        digest_of(sibling, d)
    }
}

/// `d` lists the digests from a leaf at a position up to a root; the position is halved from
/// level to level.
pub open spec fn climbs(
    leaf: Seq<u8>,
    siblings: Seq<[u8; 32]>,
    position: int,
    d: Seq<Seq<u8>>,
) -> bool {
    &&& d.len() == siblings.len() + 1
    &&& d[0] == leaf
    &&& forall|k: int|
        0 <= k < siblings.len() ==> d[k + 1] == beside(
            position / (exp2(k as nat) as int),
            d[k],
            (#[trigger] siblings[k])@,
        )
}

/// The siblings lead from a leaf at a position to a root.
pub open spec fn leads_to(
    leaf: Seq<u8>,
    siblings: Seq<[u8; 32]>,
    position: int,
    root: Seq<u8>,
) -> bool {
    exists|d: Seq<Seq<u8>>| #[trigger] climbs(leaf, siblings, position, d) && d.last() == root
}

/// A bit of a number is the parity of the number divided by a power of two.
pub proof fn lemma_bit_parity(n: int, k: nat)
    requires
        0 <= n,
    ensures
        nat_bit(n, k) == ((n / (exp2(k) as int)) % 2 == 1),
        n / (exp2(k + 1) as int) == n / (exp2(k) as int) / 2,
{
    lemma_shr_step(n, k);
    lemma_shr_divides(n, k);
    lemma_shr_divides(n, k + 1);
}

/// The digests of a path, level by level.
proof fn lemma_digest_climbs(
    leaf: Seq<u8>,
    siblings: Seq<[u8; 32]>,
    position: int,
    d: Seq<Seq<u8>>,
    n: nat,
)
    requires
        0 <= position,
        climbs(leaf, siblings, position, d),
        n <= siblings.len(),
    ensures
        path_digest(poseidon_pair(), leaf, siblings, position, n) == d[n as int],
    decreases n,
{
    if n > 0 {
        let k = (n - 1) as nat;
        lemma_digest_climbs(leaf, siblings, position, d, k);
        lemma_bit_parity(position, k);
        let s = siblings[k as int]@;
        assert(d[n as int] == beside(position / (exp2(k) as int), d[k as int], s));
    }
}

/// The root of a path is where the digests lead, whatever list of them is given.
pub proof fn lemma_root_climbs(
    leaf: Seq<u8>,
    siblings: Seq<[u8; 32]>,
    position: int,
    d: Seq<Seq<u8>>,
)
    requires
        0 <= position,
        climbs(leaf, siblings, position, d),
    ensures
        path_root(poseidon_pair(), leaf, siblings, position) == d.last(),
{
    lemma_digest_climbs(leaf, siblings, position, d, siblings.len());
}

/// There is such a list.
proof fn lemma_climbs_exist(leaf: Seq<u8>, siblings: Seq<[u8; 32]>, position: int) -> (d: Seq<
    Seq<u8>,
>)
    requires
        0 <= position,
    ensures
        climbs(leaf, siblings, position, d),
    decreases siblings.len(),
{
    if siblings.len() == 0 {
        seq![leaf]
    } else {
        let below = siblings.drop_last();
        let d = lemma_climbs_exist(leaf, below, position);
        let k = siblings.len() - 1;
        let top = beside(position / (exp2(k as nat) as int), d.last(), siblings[k]@);
        let r = d.push(top);
        assert forall|j: int| 0 <= j < siblings.len() implies r[j + 1] == beside(
            position / (exp2(j as nat) as int),
            r[j],
            (#[trigger] siblings[j])@,
        ) by {
            if j < k {
                assert(siblings[j] == below[j]);
            }
        }
        r
    }
}

/// A root is that of a path if and only if the siblings lead to it.
pub proof fn lemma_root_reached(
    leaf: Seq<u8>,
    siblings: Seq<[u8; 32]>,
    position: int,
    root: Seq<u8>,
)
    requires
        0 <= position,
    ensures
        (path_root(poseidon_pair(), leaf, siblings, position) == root) == leads_to(
            leaf,
            siblings,
            position,
            root,
        ),
{
    let d = lemma_climbs_exist(leaf, siblings, position);
    lemma_root_climbs(leaf, siblings, position, d);
    if leads_to(leaf, siblings, position, root) {
        let e = choose|e: Seq<Seq<u8>>| #[trigger]
            climbs(leaf, siblings, position, e) && e.last() == root;
        lemma_root_climbs(leaf, siblings, position, e);
    }
}

/// A path that passes a check, in full or by its digests, leads from its row to the root, and is
/// as long as it says.
pub proof fn lemma_checked_path(
    row: Seq<int>,
    siblings: Seq<[u8; 32]>,
    position: int,
    root: Seq<u8>,
    p: FriMmcsPathProof,
)
    requires
        0 <= position,
        path_record_valid(row, siblings, position, root, p) || path_digests_valid(
            row,
            siblings,
            position,
            root,
            p,
        ),
    ensures
        leads_to(row_digest(row), siblings, position, root),
        siblings.len() == p.depth,
        siblings.len() > 0,
        row.len() as u32 == p.leaf_width,
{
    lemma_root_reached(poseidon_leaf(row), siblings, position, root);
}

/// A path whose siblings lead elsewhere passes neither check.
pub proof fn lemma_astray_refused(
    row: Seq<int>,
    siblings: Seq<[u8; 32]>,
    position: int,
    root: Seq<u8>,
    p: FriMmcsPathProof,
)
    requires
        0 <= position,
        !leads_to(row_digest(row), siblings, position, root),
    ensures
        !path_record_valid(row, siblings, position, root, p),
        !path_digests_valid(row, siblings, position, root, p),
        path_fault(row, siblings, position, root) is Some,
{
    lemma_root_reached(poseidon_leaf(row), siblings, position, root);
}

/// A path can be recorded if and only if it leads to the root and is neither empty nor too long;
/// what is recorded passes both checks.
pub proof fn lemma_recorded_path(
    row: Seq<int>,
    siblings: Seq<[u8; 32]>,
    position: int,
    root: Seq<u8>,
)
    requires
        0 <= position,
    ensures
        (path_fault(row, siblings, position, root) is None) == (0 < siblings.len() <= 20
            && leads_to(row_digest(row), siblings, position, root)),
        forall|p: FriMmcsPathProof|
            path_fault(row, siblings, position, root) is None && #[trigger] is_path_record(
                p,
                row,
                siblings,
                position,
            ) ==> path_record_valid(row, siblings, position, root, p),
{
    lemma_root_reached(poseidon_leaf(row), siblings, position, root);
}

/// The rows of a group, one after the other.
pub open spec fn end_to_end(rows: Seq<Seq<int>>, group: Seq<int>) -> Seq<int>
    decreases group.len(),
{
    if group.len() == 0 {
        Seq::empty()
    } else {
        rows[group[0]] + end_to_end(rows, group.drop_first())
    }
}

/// One more row at the end.
proof fn lemma_end_push(rows: Seq<Seq<int>>, group: Seq<int>)
    requires
        group.len() > 0,
    ensures
        end_to_end(rows, group) == end_to_end(rows, group.drop_last()) + rows[group.last()],
    decreases group.len(),
{
    let rest = group.drop_first();
    if group.len() == 1 {
        assert(end_to_end(rows, rest) =~= Seq::<int>::empty());
        assert(end_to_end(rows, group.drop_last()) =~= Seq::<int>::empty());
        assert(end_to_end(rows, group) =~= rows[group[0]]);
        assert(Seq::<int>::empty() + rows[group.last()] =~= rows[group.last()]);
    } else {
        lemma_end_push(rows, rest);
        let front = group.drop_last();
        assert(front.drop_first() =~= rest.drop_last());
        assert(rows[group[0]] + (end_to_end(rows, rest.drop_last()) + rows[rest.last()])
            =~= (rows[group[0]] + end_to_end(rows, rest.drop_last())) + rows[rest.last()]);
    }
}

/// The joint row of a group is its rows, one after the other.
pub proof fn lemma_joint_row(rows: Seq<Seq<int>>, group: Seq<int>)
    ensures
        joint_row(rows, group) == end_to_end(rows, group),
    decreases group.len(),
{
    if group.len() > 0 {
        lemma_joint_row(rows, group.drop_last());
        lemma_end_push(rows, group);
    }
}

/// The greatest height is the height of some matrix, and none is taller.
proof fn lemma_tallest(hs: Seq<int>)
    requires
        hs.len() > 0,
        forall|i: int| 0 <= i < hs.len() ==> 0 <= #[trigger] hs[i],
    ensures
        forall|i: int| 0 <= i < hs.len() ==> #[trigger] hs[i] <= tallest(hs),
        exists|i: int| 0 <= i < hs.len() && #[trigger] hs[i] == tallest(hs),
    decreases hs.len(),
{
    let rest = hs.drop_last();
    if rest.len() > 0 {
        lemma_tallest(rest);
        let j = choose|j: int| 0 <= j < rest.len() && #[trigger] rest[j] == tallest(rest);
        assert(hs[j] == rest[j]);
        assert forall|i: int| 0 <= i < hs.len() implies #[trigger] hs[i] <= tallest(hs) by {
            if i < rest.len() {
                assert(hs[i] == rest[i]);
            }
        }
    } else {
        assert(tallest(rest) == 0);
    }
    assert(hs[hs.len() - 1] == hs.last());
}

/// `group` lists, each once and in ascending order, the matrices of a batch that have a height.
pub open spec fn lists_matrices(b: Batch, group: Seq<int>, h: int) -> bool {
    &&& forall|x: int| #[trigger]
        group.contains(x) <==> 0 <= x < b.dims.len() && b.dims[x].height == h
    &&& forall|i: int, j: int| 0 <= i < j < group.len() ==> #[trigger] group[i] < #[trigger] group[j]
}

/// What a list keeps of a relation of all its pairs is kept by what is left of it.
proof fn lemma_filter_pairs(s: Seq<int>, test: spec_fn(int) -> bool, rel: spec_fn(int, int) -> bool)
    requires
        forall|i: int, j: int|
            0 <= i < j < s.len() ==> rel(#[trigger] s[i], #[trigger] s[j]),
    ensures
        forall|i: int, j: int|
            0 <= i < j < s.filter(test).len() ==> rel(
                #[trigger] s.filter(test)[i],
                #[trigger] s.filter(test)[j],
            ),
        forall|x: int| #[trigger] s.filter(test).contains(x) <==> s.contains(x) && test(x),
    decreases s.len(),
{
    reveal(Seq::filter);
    let f = s.filter(test);
    if s.len() > 0 {
        let rest = s.drop_last();
        lemma_filter_pairs(rest, test, rel);
        let g = rest.filter(test);
        assert forall|x: int| #[trigger] f.contains(x) <==> s.contains(x) && test(x) by {
            if f.contains(x) {
                let i = choose|i: int| 0 <= i < f.len() && f[i] == x;
                if i < g.len() {
                    assert(g[i] == x);
                    assert(g.contains(x));
                    let j = choose|j: int| 0 <= j < rest.len() && rest[j] == x;
                    assert(s[j] == x);
                } else {
                    assert(s[s.len() - 1] == x);
                }
            }
            if s.contains(x) && test(x) {
                let i = choose|i: int| 0 <= i < s.len() && s[i] == x;
                if i < rest.len() {
                    assert(rest[i] == x);
                    assert(rest.contains(x));
                    assert(g.contains(x));
                    let j = choose|j: int| 0 <= j < g.len() && g[j] == x;
                    assert(f[j] == x);
                } else {
                    assert(f[f.len() - 1] == x);
                }
            }
        }
        assert forall|i: int, j: int| 0 <= i < j < f.len() implies rel(
            #[trigger] f[i],
            #[trigger] f[j],
        ) by {
            if j < g.len() {
                assert(f[i] == g[i]);
                assert(f[j] == g[j]);
            } else {
                assert(f[i] == g[i]);
                assert(g.contains(g[i]));
                let k = choose|k: int| 0 <= k < rest.len() && rest[k] == g[i];
                assert(s[k] == f[i]);
                assert(s[s.len() - 1] == f[j]);
            }
        }
    }
}

/// The matrices of a height, in their order.
proof fn lemma_group_at(b: Batch, h: int)
    ensures
        lists_matrices(b, b.group_at(h), h),
{
    let all = indices(b.dims.len());
    let test = |i: int| b.dims[i].height == h;
    let rel = |i: int, j: int| i < j;
    lemma_filter_pairs(all, test, rel);
    let g = b.group_at(h);
    assert(g == all.filter(test));
    assert forall|x: int| #[trigger]
        g.contains(x) <==> 0 <= x < b.dims.len() && b.dims[x].height as int == h by {
        if 0 <= x < b.dims.len() {
            assert(all[x] == x);
            assert(all.contains(x));
        }
        if all.contains(x) {
            let i = choose|i: int| 0 <= i < all.len() && all[i] == x;
        }
    }
    assert forall|i: int, j: int| 0 <= i < j < g.len() implies #[trigger] g[i] < #[trigger] g[j] by {
        assert(rel(g[i], g[j]));
    }
}

/// `group` lists the tallest matrices of a batch: those of more than half the greatest height,
/// taller ones first, equally tall ones in ascending order.
pub open spec fn lists_tallest(b: Batch, top: int, group: Seq<int>) -> bool {
    &&& forall|x: int| #[trigger]
        group.contains(x) <==> 0 <= x < b.dims.len() && (top <= 1 || 2 * b.dims[x].height > top)
    &&& forall|i: int, j: int|
        0 <= i < j < group.len() ==> {
            ||| b.dims[#[trigger] group[i]].height > b.dims[#[trigger] group[j]].height
            ||| b.dims[group[i]].height == b.dims[group[j]].height && group[i] < group[j]
        }
}

/// The digests `d` of a batch, level by level: the rows of the tallest matrices are hashed
/// together, and the matrices of height `top / 2^k` join after level `k`, where there are any.
pub open spec fn batch_climbs(b: Batch, top: int, groups: Seq<Seq<int>>, d: Seq<Seq<u8>>) -> bool {
    let n = b.siblings.len();
    &&& forall|i: int| 0 <= i < b.dims.len() ==> (#[trigger] b.dims[i]).height <= top
    &&& exists|i: int| 0 <= i < b.dims.len() && (#[trigger] b.dims[i]).height == top
    &&& top == exp2(n)
    &&& groups.len() == n + 1
    &&& d.len() == n + 1
    &&& lists_tallest(b, top, groups[0])
    &&& d[0] == row_digest(end_to_end(b.rows, groups[0]))
    &&& forall|k: int| 0 <= k < n ==> #[trigger] level_stands(b, top, groups, d, k)
}

/// Level `k` leads to the next: the digest beside its sibling, and with it the matrices of the
/// height reached.
pub open spec fn level_stands(
    b: Batch,
    top: int,
    groups: Seq<Seq<int>>,
    d: Seq<Seq<u8>>,
    k: int,
) -> bool {
    let up = beside(b.index / (exp2(k as nat) as int), d[k], b.siblings[k]@);
    &&& lists_matrices(b, groups[k + 1], top / (exp2((k + 1) as nat) as int))
    &&& d[k + 1] == if groups[k + 1].len() == 0 {
        up
    } else {
        digest_of(up, row_digest(end_to_end(b.rows, groups[k + 1])))
    }
}

/// The siblings of a batch lead from its rows to a root.
pub open spec fn batch_leads_to(b: Batch, root: Seq<u8>) -> bool {
    exists|top: int, groups: Seq<Seq<int>>, d: Seq<Seq<u8>>| #[trigger]
        batch_climbs(b, top, groups, d) && d.last() == root
}

/// The order lists every matrix, taller ones first.
pub(crate) proof fn lemma_order(hs: Seq<int>)
    ensures
        forall|x: int| #[trigger] tallest_first(hs).contains(x) <==> 0 <= x < hs.len(),
        forall|i: int, j: int|
            0 <= i < j < tallest_first(hs).len() ==> before(
                hs,
                #[trigger] tallest_first(hs)[i],
                #[trigger] tallest_first(hs)[j],
            ),
{
    lemma_tallest_first(hs);
    let o = tallest_first(hs);
    assert forall|x: int| #[trigger] o.contains(x) implies 0 <= x < hs.len() by {
        let i = choose|i: int| 0 <= i < o.len() && o[i] == x;
        assert(0 <= o[i] < hs.len());
    }
    assert forall|i: int, j: int| 0 <= i < j < o.len() implies before(
        hs,
        #[trigger] o[i],
        #[trigger] o[j],
    ) by {
        assert(no_later(hs)(o[i], o[j]));
        assert(o[i] != o[j]);
    }
}

/// Matrix `a` comes before `b`.
pub(crate) open spec fn before(hs: Seq<int>, a: int, b: int) -> bool {
    hs[a] > hs[b] || (hs[a] == hs[b] && a < b)
}

/// The tallest matrices are listed as such.
proof fn lemma_leaf_group(b: Batch)
    ensures
        lists_tallest(b, b.max_height(), b.leaf_group()),
{
    let hs = b.heights();
    let o = b.order();
    let test = |i: int| b.at_leaf(i);
    let rel = |i: int, j: int| before(hs, i, j);
    lemma_order(hs);
    lemma_filter_pairs(o, test, rel);
    let g = b.leaf_group();
    let top = b.max_height();
    assert(g == o.filter(test));
    assert forall|x: int| #[trigger]
        g.contains(x) <==> 0 <= x < b.dims.len() && (top <= 1 || 2 * b.dims[x].height > top) by {
        assert(g.contains(x) <==> o.contains(x) && test(x));
    }
    assert forall|i: int, j: int| 0 <= i < j < g.len() implies {
        ||| b.dims[#[trigger] g[i]].height > b.dims[#[trigger] g[j]].height
        ||| b.dims[g[i]].height == b.dims[g[j]].height && g[i] < g[j]
    } by {
        assert(rel(g[i], g[j]));
        assert(g.contains(g[i]));
        assert(g.contains(g[j]));
    }
}

/// One level of a batch.
proof fn lemma_level(b: Batch, k: nat)
    requires
        0 <= b.index,
        0 <= b.max_height(),
    ensures
        lists_matrices(b, b.joining(k + 1), b.max_height() / (exp2(k + 1) as int)),
        b.after(k + 1) == {
            let up = beside(
                b.index / (exp2(k) as int),
                b.after(k),
                b.siblings[k as int]@,
            );
            if b.joining(k + 1).len() == 0 {
                up
            } else {
                digest_of(up, row_digest(end_to_end(b.rows, b.joining(k + 1))))
            }
        },
{
    lemma_bit_parity(b.index, k);
    lemma_shr_divides(b.max_height(), k + 1);
    lemma_group_at(b, shr(b.max_height(), k + 1));
    lemma_joint_row(b.rows, b.joining(k + 1));
}

/// A batch whose digest after all levels is the root leads to it.
proof fn lemma_batch_reached(b: Batch, root: Seq<u8>)
    requires
        b.dims.len() > 0,
        0 <= b.index,
        is_pow2(b.max_height()),
        b.siblings.len() == b.steps(),
        b.after(b.steps()) == root,
    ensures
        batch_leads_to(b, root),
{
    let n = b.siblings.len();
    let top = b.max_height();
    let hs = b.heights();
    lemma_tallest(hs);
    lemma_pow2_is_exp2(top);
    let groups = Seq::new(
        n + 1,
        |k: int| if k == 0 {
            b.leaf_group()
        } else {
            b.joining(k as nat)
        },
    );
    let d = Seq::new(n + 1, |k: int| b.after(k as nat));
    lemma_leaf_group(b);
    lemma_joint_row(b.rows, b.leaf_group());
    assert forall|k: int| 0 <= k < n implies #[trigger] level_stands(b, top, groups, d, k) by {
        lemma_level(b, k as nat);
    }
    assert forall|i: int| 0 <= i < b.dims.len() implies (#[trigger] b.dims[i]).height <= top by {
        assert(hs[i] <= top);
    }
    let t = choose|i: int| 0 <= i < hs.len() && #[trigger] hs[i] == tallest(hs);
    assert(b.dims[t].height == top);
    assert(batch_climbs(b, top, groups, d));
}

/// A batch that passes a check, in full or by its digests, or can be recorded, leads from its
/// rows to the root.
pub proof fn lemma_checked_batch(b: Batch, root: Seq<u8>, p: FriChalBatchPathProof)
    requires
        b.dims.len() > 0,
        0 <= b.index,
        b.siblings == p.siblings@,
        b.report(root) is None || b.replay_valid(root, p) || b.digests_valid(root, p),
    ensures
        batch_leads_to(b, root),
        b.rows.len() == b.dims.len(),
{
    lemma_batch_reached(b, root);
}

/// A batch whose rows lead elsewhere passes neither check and cannot be recorded.
pub proof fn lemma_batch_astray_refused(b: Batch, root: Seq<u8>, p: FriChalBatchPathProof)
    requires
        b.dims.len() > 0,
        0 <= b.index,
        b.siblings == p.siblings@,
        !batch_leads_to(b, root),
    ensures
        b.report(root) is Some,
        !b.replay_valid(root, p),
        !b.digests_valid(root, p),
{
    if b.report(root) is None || b.replay_valid(root, p) || b.digests_valid(root, p) {
        lemma_checked_batch(b, root, p);
    }
}

/// A batch of one matrix is a path: it leads to a root if and only if the siblings do.
pub proof fn lemma_single_batch(b: Batch, root: Seq<u8>, p: FriChalBatchPathProof)
    requires
        b.dims.len() == 1,
        0 <= b.index,
        b.siblings == p.siblings@,
        b.report(root) is None || b.replay_valid(root, p) || b.digests_valid(root, p),
    ensures
        b.dims[0].height == exp2(b.siblings.len()),
        leads_to(row_digest(b.rows[0]), b.siblings, b.index, root),
{
    lemma_checked_batch(b, root, p);
    let (top, groups, d) = choose|top: int, groups: Seq<Seq<int>>, d: Seq<Seq<u8>>| #[trigger]
        batch_climbs(b, top, groups, d) && d.last() == root;
    let n = b.siblings.len();
    let t = choose|i: int| 0 <= i < b.dims.len() && (#[trigger] b.dims[i]).height == top;
    assert(b.dims[t].height == top);
    let g = groups[0];
    assert(g.contains(0));
    assert(g =~= seq![0int]) by {
        assert forall|i: int| 0 <= i < g.len() implies g[i] == 0 by {
            assert(g.contains(g[i]));
        }
        if g.len() > 1 {
            assert(g[0] < g[1]);
        }
    }
    assert(end_to_end(b.rows, g) =~= b.rows[0]) by {
        assert(end_to_end(b.rows, g.drop_first()) =~= Seq::<int>::empty());
    }
    assert forall|k: int| 0 <= k < n implies d[k + 1] == beside(
        b.index / (exp2(k as nat) as int),
        d[k],
        (#[trigger] b.siblings[k])@,
    ) by {
        let h = top / (exp2((k + 1) as nat) as int);
        lemma_exp2_positive((k + 1) as nat);
        lemma_exp2_positive(k as nat);
        let e = exp2((k + 1) as nat) as int;
        assert(e >= 2);
        lemma_exp2_positive(n);
        vstd::arithmetic::div_mod::lemma_div_decreases(top, e);
        let j = groups[k + 1];
        assert(level_stands(b, top, groups, d, k));
        assert(lists_matrices(b, j, h));
        if j.len() > 0 {
            assert(j.contains(j[0]));
        }
    }
    assert(climbs(row_digest(b.rows[0]), b.siblings, b.index, d));
}

} // verus!
