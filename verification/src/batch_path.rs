//! Paths of openings that span several matrices of different heights.
//!
//! The rows of the tallest matrices are hashed together into the leaf digest. On the way up, the
//! rows of the matrices whose height is reached are hashed together and paired with the running
//! digest.
use vstd::prelude::*;
use vstd::relations::{sorted_by, total_ordering};

use crate::bits::{
    floor_log2, is_pow2, lemma_shr_step, log2_strict, nat_bit, shr,
};
use crate::field::{same_row, vals, Val};
use crate::fri_mmcs_path::{is_stub, row_bytes, row_msg_len, FRI_MMCS_MAX_DEPTH};
use crate::keccak256_air::{same_digest, Keccak256StarkProof};
use crate::merkle::copy_digests;
use crate::merkle_keccak::{compress_digests, hash_val_leaf};
use crate::merkle_poseidon2::{poseidon_leaf, poseidon_pair};

verus! {

/// The shape of a matrix.
#[derive(Debug, Clone, Copy, PartialEq, Eq)]
pub struct Dimensions {
    pub width: usize,
    pub height: usize,
}

/// A batch path as digests, repeated in hash records whose proof bytes are empty.
#[derive(Debug, Clone, PartialEq, Eq)]
pub struct FriChalBatchPathProof {
    /// What is left of the index at the root.
    pub index: u32,
    pub siblings: Vec<[u8; 32]>,
    /// The rows, tallest matrix first, and after them each joint row of several matrices.
    pub leaf_rows: Vec<Vec<Val>>,
    pub leaf_keccs: Vec<Keccak256StarkProof>,
    pub leaf_digests: Vec<[u8; 32]>,
    /// One per sibling.
    pub sib_compresses: Vec<Keccak256StarkProof>,
    pub sib_layer_digests: Vec<[u8; 32]>,
    /// One per height at which matrices join.
    pub inject_compresses: Vec<Keccak256StarkProof>,
    pub inject_digests: Vec<[u8; 32]>,
    pub inject_leaf_indices: Vec<u32>,
}

/// Why no batch path was recorded.
#[derive(Debug, Clone, Copy, PartialEq, Eq)]
pub enum BatchError {
    Shape,
    /// More than [`FRI_MMCS_MAX_DEPTH`] siblings.
    Depth,
    Height,
    Index,
    Width,
    /// Fewer siblings than levels.
    TooFewSiblings,
    /// More siblings than levels.
    TooManySiblings,
    RootMismatch,
}

/// The numbers below `n`.
pub open spec fn indices(n: nat) -> Seq<int> {
    Seq::new(n, |i: int| i)
}

/// The views of a list of positions.
pub open spec fn positions(s: Seq<usize>) -> Seq<int> {
    Seq::new(s.len(), |i: int| s[i] as int)
}

/// The residues of a list of rows.
pub open spec fn row_views(rows: Seq<Vec<Val>>) -> Seq<Seq<int>> {
    Seq::new(rows.len(), |i: int| vals(rows[i]@))
}

/// The greatest of a list of heights; zero for none.
pub open spec fn tallest(hs: Seq<int>) -> int
    decreases hs.len(),
{
    if hs.len() == 0 {
        0
    } else {
        let m = tallest(hs.drop_last());
        if hs.last() > m {
            hs.last()
        } else {
            m
        }
    }
}

/// Matrix `a` comes no later than `b`: it is taller, or as tall and listed no later.
pub open spec fn no_later(hs: Seq<int>) -> spec_fn(int, int) -> bool {
    |a: int, b: int| hs[a] > hs[b] || (hs[a] == hs[b] && a <= b)
}

/// The matrices, tallest first; equally tall ones in their given order.
pub open spec fn tallest_first(hs: Seq<int>) -> Seq<int> {
    indices(hs.len()).sort_by(no_later(hs))
}

/// Rows of a group of matrices, one after the other.
pub open spec fn joint_row(rows: Seq<Seq<int>>, group: Seq<int>) -> Seq<int>
    decreases group.len(),
{
    if group.len() == 0 {
        Seq::empty()
    } else {
        joint_row(rows, group.drop_last()) + rows[group.last()]
    }
}

/// `v` holds the digests `want`.
pub open spec fn digests_are(v: Seq<[u8; 32]>, want: Seq<Seq<u8>>) -> bool {
    &&& v.len() == want.len()
    &&& forall|i: int| 0 <= i < v.len() ==> (#[trigger] v[i])@ == want[i]
}

/// `v` holds hash records of two joined digests with the digests `want`.
pub open spec fn pair_stubs_are(v: Seq<Keccak256StarkProof>, want: Seq<Seq<u8>>) -> bool {
    &&& v.len() == want.len()
    &&& forall|i: int| 0 <= i < v.len() ==> is_stub(#[trigger] v[i], 64, want[i])
}

/// The openings of one index over several matrices, and the siblings of its path.
pub struct Batch {
    pub rows: Seq<Seq<int>>,
    pub dims: Seq<Dimensions>,
    pub siblings: Seq<[u8; 32]>,
    pub index: int,
}

impl Batch {
    pub open spec fn heights(self) -> Seq<int> {
        Seq::new(self.dims.len(), |i: int| self.dims[i].height as int)
    }

    pub open spec fn max_height(self) -> int {
        tallest(self.heights())
    }

    /// Number of levels above the leaf.
    pub open spec fn steps(self) -> nat {
        floor_log2(self.max_height())
    }

    pub open spec fn order(self) -> Seq<int> {
        tallest_first(self.heights())
    }

    /// Whether a matrix belongs to the leaf: its height, rounded up to a power of two, is the
    /// tallest.
    pub open spec fn at_leaf(self, i: int) -> bool {
        self.max_height() <= 1 || self.dims[i].height > self.max_height() / 2
    }

    pub open spec fn leaf_group(self) -> Seq<int> {
        self.order().filter(|i: int| self.at_leaf(i))
    }

    /// The matrices of a height, in their given order.
    pub open spec fn group_at(self, h: int) -> Seq<int> {
        indices(self.dims.len()).filter(|i: int| self.dims[i].height == h)
    }

    /// The matrices that join after `k` levels.
    pub open spec fn joining(self, k: nat) -> Seq<int> {
        self.group_at(shr(self.max_height(), k))
    }

    pub open spec fn group_row(self, group: Seq<int>) -> Seq<int> {
        joint_row(self.rows, group)
    }

    /// The running digest after `k` levels.
    pub open spec fn after(self, k: nat) -> Seq<u8>
        decreases k,
    {
        if k == 0 {
            poseidon_leaf(self.group_row(self.leaf_group()))
        } else {
            let d = sided(
                self.after((k - 1) as nat),
                self.siblings[k - 1]@,
                nat_bit(self.index, (k - 1) as nat),
            );
            if self.joining(k).len() == 0 {
                d
            } else {
                poseidon_pair()(d, poseidon_leaf(self.group_row(self.joining(k))))
            }
        }
    }

    /// The digest of level `k` before matrices join.
    pub open spec fn layer(self, k: nat) -> Seq<u8> {
        sided(
            self.after((k - 1) as nat),
            self.siblings[k - 1]@,
            nat_bit(self.index, (k - 1) as nat),
        )
    }

    pub open spec fn layers(self, k: nat) -> Seq<Seq<u8>> {
        Seq::new(k, |i: int| self.layer((i + 1) as nat))
    }

    /// The digests after each level at which matrices joined.
    pub open spec fn joined(self, k: nat) -> Seq<Seq<u8>>
        decreases k,
    {
        if k == 0 {
            Seq::empty()
        } else if self.joining(k).len() == 0 {
            self.joined((k - 1) as nat)
        } else {
            self.joined((k - 1) as nat).push(self.after(k))
        }
    }

    /// Where the first of the matrices that joined stands in the order.
    pub open spec fn joined_at(self, k: nat) -> Seq<u32>
        decreases k,
    {
        if k == 0 {
            Seq::empty()
        } else if self.joining(k).len() == 0 {
            self.joined_at((k - 1) as nat)
        } else {
            self.joined_at((k - 1) as nat).push(self.order().index_of(self.joining(k)[0]) as u32)
        }
    }

    /// The recorded rows after `k` levels.
    pub open spec fn recorded_rows(self, k: nat) -> Seq<Seq<int>>
        decreases k,
    {
        if k == 0 {
            let singles = Seq::new(self.dims.len(), |i: int| self.rows[self.order()[i]]);
            if self.leaf_group().len() == 1 {
                singles
            } else {
                singles.push(self.group_row(self.leaf_group()))
            }
        } else if self.joining(k).len() <= 1 {
            self.recorded_rows((k - 1) as nat)
        } else {
            self.recorded_rows((k - 1) as nat).push(self.group_row(self.joining(k)))
        }
    }

    /// Why no path can be recorded, if so.
    pub open spec fn report(self, root: Seq<u8>) -> Option<BatchError> {
        if self.dims.len() != self.rows.len() || self.dims.len() == 0 {
            Some(BatchError::Shape)
        } else if self.siblings.len() > FRI_MMCS_MAX_DEPTH {
            Some(BatchError::Depth)
        } else if !is_pow2(self.max_height()) {
            Some(BatchError::Height)
        } else if self.index >= self.max_height() {
            Some(BatchError::Index)
        } else if exists|i: int|
            0 <= i < self.rows.len() && (#[trigger] self.rows[i]).len() != self.dims[i].width {
            Some(BatchError::Width)
        } else if self.siblings.len() < self.steps() {
            Some(BatchError::TooFewSiblings)
        } else if self.siblings.len() > self.steps() {
            Some(BatchError::TooManySiblings)
        } else if self.after(self.steps()) != root {
            Some(BatchError::RootMismatch)
        } else {
            None
        }
    }

    /// `p` records the path.
    pub open spec fn is_record(self, p: FriChalBatchPathProof) -> bool {
        let n = self.steps();
        let rows = self.recorded_rows(n);
        &&& p.index == shr(self.index, n) as u32
        &&& p.siblings@ == self.siblings
        &&& leaves_are(p.leaf_rows@, p.leaf_keccs@, p.leaf_digests@, rows)
        &&& pair_stubs_are(p.sib_compresses@, self.layers(n))
        &&& digests_are(p.sib_layer_digests@, self.layers(n))
        &&& pair_stubs_are(p.inject_compresses@, self.joined(n))
        &&& digests_are(p.inject_digests@, self.joined(n))
        &&& p.inject_leaf_indices@ == self.joined_at(n)
    }

    /// Where the openings are given, tallest first, with their digests.
    pub open spec fn leaf_ok(self, p: FriChalBatchPathProof, i: int) -> bool {
        let row = self.rows[self.order()[i]];
        &&& vals(p.leaf_rows@[i]@) == row
        &&& p.leaf_digests@[i]@ == poseidon_leaf(row)
        &&& p.leaf_keccs@[i].digest@ == poseidon_leaf(row)
    }

    /// Entry `i` carries the leaf digest of the joint row.
    pub open spec fn joint_leaf(self, p: FriChalBatchPathProof, i: int) -> bool {
        let d = self.after(0);
        &&& p.leaf_digests@[i]@ == d
        &&& poseidon_leaf(vals(p.leaf_rows@[i]@)) == d
        &&& p.leaf_keccs@[i].digest@ == d
    }

    /// The joint leaf row of several matrices is among the extra entries.
    pub open spec fn has_joint_leaf(self, p: FriChalBatchPathProof) -> bool {
        exists|i: int|
            self.dims.len() <= i < p.leaf_rows@.len() && i < p.leaf_digests@.len() && i
                < p.leaf_keccs@.len() && #[trigger] self.joint_leaf(p, i)
    }

    /// Level `k` is recorded as it is.
    pub open spec fn level_ok(self, p: FriChalBatchPathProof, k: nat) -> bool {
        let j = self.joined((k - 1) as nat).len() as int;
        &&& k <= p.siblings@.len()
        &&& k <= p.sib_compresses@.len()
        &&& k <= p.sib_layer_digests@.len()
        &&& p.sib_layer_digests@[k - 1]@ == self.layer(k)
        &&& p.sib_compresses@[k - 1].digest@ == self.layer(k)
        &&& self.joining(k).len() > 0 ==> {
            &&& j < p.inject_compresses@.len()
            &&& j < p.inject_digests@.len()
            &&& p.inject_digests@[j]@ == self.after(k)
            &&& p.inject_compresses@[j].digest@ == self.after(k)
        }
    }

    /// What a full record must satisfy.
    pub open spec fn replay_valid(self, root: Seq<u8>, p: FriChalBatchPathProof) -> bool {
        let n = self.dims.len();
        &&& n == self.rows.len()
        &&& is_pow2(self.max_height())
        &&& n <= p.leaf_keccs@.len()
        &&& n <= p.leaf_rows@.len()
        &&& n <= p.leaf_digests@.len()
        &&& forall|i: int| 0 <= i < n ==> #[trigger] self.leaf_ok(p, i)
        &&& self.leaf_group().len() != 1 ==> self.has_joint_leaf(p)
        &&& forall|k: nat| 1 <= k <= self.steps() ==> #[trigger] self.level_ok(p, k)
        &&& self.steps() == p.siblings@.len()
        &&& self.after(self.steps()) == root
    }

    /// Level `k` agrees with the digests that are carried.
    pub open spec fn digest_level_ok(self, p: FriChalBatchPathProof, k: nat) -> bool {
        let j = self.joined((k - 1) as nat).len() as int;
        let carried = p.leaf_digests@.len() > 0;
        &&& k <= p.siblings@.len()
        &&& carried ==> k <= p.sib_layer_digests@.len() && p.sib_layer_digests@[k - 1]@
            == self.layer(k)
        &&& self.joining(k).len() > 0 ==> if carried {
            j < p.inject_digests@.len() && p.inject_digests@[j]@ == self.after(k)
        } else {
            j < p.inject_leaf_indices@.len()
        }
    }

    /// What a record must satisfy whose digests may have been left out.
    pub open spec fn digests_valid(self, root: Seq<u8>, p: FriChalBatchPathProof) -> bool {
        let n = self.dims.len();
        let carried = p.leaf_digests@.len() > 0;
        let joins = self.joined(self.steps()).len();
        &&& n == self.rows.len()
        &&& is_pow2(self.max_height())
        &&& carried ==> n <= p.leaf_keccs@.len() && n <= p.leaf_digests@.len()
        &&& n <= p.leaf_rows@.len()
        &&& forall|i: int|
            0 <= i < n ==> vals((#[trigger] p.leaf_rows@[i])@) == self.rows[self.order()[i]]
        &&& carried ==> forall|i: int| 0 <= i < n ==> #[trigger] self.leaf_ok(p, i)
        &&& carried && self.leaf_group().len() != 1 ==> self.has_joint_leaf(p)
        &&& forall|k: nat| 1 <= k <= self.steps() ==> #[trigger] self.digest_level_ok(p, k)
        &&& self.steps() == p.siblings@.len()
        &&& self.after(self.steps()) == root
        &&& joins == if carried {
            p.inject_digests@.len()
        } else {
            p.inject_leaf_indices@.len()
        }
    }
}

/// A digest paired with its sibling; `right` says that the digest stands on the right.
pub open spec fn sided(d: Seq<u8>, sib: Seq<u8>, right: bool) -> Seq<u8> {
    if right {
        poseidon_pair()(sib, d)
    } else {
        poseidon_pair()(d, sib)
    }
}

/// Rows with their digests and hash records.
pub open spec fn leaves_are(
    rows: Seq<Vec<Val>>,
    keccs: Seq<Keccak256StarkProof>,
    digests: Seq<[u8; 32]>,
    want: Seq<Seq<int>>,
) -> bool {
    &&& rows.len() == want.len()
    &&& keccs.len() == want.len()
    &&& digests.len() == want.len()
    &&& forall|i: int| 0 <= i < want.len() ==> vals((#[trigger] rows[i])@) == want[i]
    &&& forall|i: int|
        0 <= i < want.len() ==> is_stub(
            #[trigger] keccs[i],
            row_bytes(want[i].len()),
            poseidon_leaf(want[i]),
        )
    &&& forall|i: int| 0 <= i < want.len() ==> (#[trigger] digests[i])@ == poseidon_leaf(want[i])
}

/// The order by height is total.
proof fn lemma_no_later_total(hs: Seq<int>)
    ensures
        total_ordering(no_later(hs)),
{
}

/// The order lists every matrix once.
pub proof fn lemma_tallest_first(hs: Seq<int>)
    ensures
        tallest_first(hs).len() == hs.len(),
        tallest_first(hs).no_duplicates(),
        forall|i: int| 0 <= i < hs.len() ==> tallest_first(hs).contains(i),
        forall|p: int| 0 <= p < hs.len() ==> 0 <= #[trigger] tallest_first(hs)[p] < hs.len(),
        sorted_by(tallest_first(hs), no_later(hs)),
{
    broadcast use vstd::seq_lib::group_to_multiset_ensures;

    let all = indices(hs.len());
    let o = tallest_first(hs);
    lemma_no_later_total(hs);
    all.lemma_sort_by_ensures(no_later(hs));
    assert(all.no_duplicates());
    all.lemma_multiset_has_no_duplicates();
    o.lemma_multiset_has_no_duplicates_conv();
    assert(all.to_multiset().len() == all.len());
    assert(o.to_multiset().len() == o.len());
    assert forall|i: int| 0 <= i < hs.len() implies o.contains(i) by {
        assert(all[i] == i);
        assert(all.contains(i));
        assert(all.to_multiset().count(i) > 0);
    }
    assert forall|p: int| 0 <= p < hs.len() implies 0 <= #[trigger] o[p] < hs.len() by {
        assert(o.contains(o[p]));
        assert(all.contains(o[p]));
    }
}

/// The heights of a list of shapes.
pub open spec fn heights_of(dims: Seq<Dimensions>) -> Seq<int> {
    Seq::new(dims.len(), |i: int| dims[i].height as int)
}

/// The greatest height; zero for none.
fn max_height_of(dims: &[Dimensions]) -> (r: usize)
    ensures
        r == tallest(heights_of(dims@)),
{
    let mut m: usize = 0;
    let mut i: usize = 0;
    let ghost hs = heights_of(dims@);
    while i < dims.len()
        invariant
            i <= dims.len(),
            hs == heights_of(dims@),
            m == tallest(hs.take(i as int)),
        decreases dims.len() - i,
    {
        proof {
            assert(hs.take(i + 1).drop_last() =~= hs.take(i as int));
        }
        if dims[i].height > m {
            m = dims[i].height;
        }
        i += 1;
    }
    proof {
        assert(hs.take(i as int) =~= hs);
    }
    m
}

/// The matrices, tallest first.
pub(crate) fn order_of(dims: &[Dimensions]) -> (r: Vec<usize>)
    ensures
        positions(r@) == tallest_first(heights_of(dims@)),
        r@.len() == dims@.len(),
        forall|k: int| 0 <= k < r@.len() ==> (#[trigger] r@[k]) < dims@.len(),
{
    let ghost hs = heights_of(dims@);
    let ghost leq = no_later(hs);
    let mut order: Vec<usize> = Vec::new();
    let mut i: usize = 0;
    proof {
        assert(positions(order@) =~= indices(0));
    }
    while i < dims.len()
        invariant
            i <= dims.len(),
            hs == heights_of(dims@),
            leq == no_later(hs),
            order@.len() == i,
            forall|k: int| 0 <= k < i ==> (#[trigger] order@[k]) < i,
            sorted_by(positions(order@), leq),
            positions(order@).to_multiset() == indices(i as nat).to_multiset(),
        decreases dims.len() - i,
    {
        let ghost before = positions(order@);
        let mut p: usize = 0;
        while p < order.len() && dims[order[p]].height >= dims[i].height
            invariant
                p <= order.len(),
                order.len() == i,
                i < dims.len(),
                hs == heights_of(dims@),
                forall|k: int| 0 <= k < i ==> (#[trigger] order@[k]) < i,
                forall|k: int| 0 <= k < p ==> hs[(#[trigger] order@[k]) as int] >= hs[i as int],
            decreases order.len() - p,
        {
            p += 1;
        }
        let ghost o0 = order@;
        order.insert(p, i);
        proof {
            let after = positions(order@);
            assert(after =~= before.insert(p as int, i as int));
            vstd::seq_lib::to_multiset_insert(before, p as int, i as int);
            assert(indices((i + 1) as nat) =~= indices(i as nat).push(i as int));
            vstd::seq_lib::to_multiset_build(indices(i as nat), i as int);
            assert forall|k: int| p <= k < before.len() implies hs[#[trigger] before[k]]
                < hs[i as int] by {
                assert(before[p as int] == o0[p as int]);
                if k > p {
                    assert(leq(before[p as int], before[k]));
                }
            }
            assert forall|a: int, b: int| 0 <= a < b < after.len() implies #[trigger] leq(
                after[a],
                after[b],
            ) by {
                let a0 = if a < p {
                    a
                } else {
                    a - 1
                };
                let b0 = if b < p {
                    b
                } else {
                    b - 1
                };
                if a != p && b != p {
                    assert(leq(before[a0], before[b0]));
                } else if b == p {
                    assert(before[a] == o0[a]);
                } else {
                    assert(before[b0] == o0[b0]);
                }
            }
        }
        i += 1;
    }
    proof {
        lemma_no_later_total(hs);
        indices(hs.len()).lemma_sort_by_ensures(leq);
        vstd::seq_lib::lemma_sorted_unique(positions(order@), tallest_first(hs), leq);
    }
    order
}

/// The matrices of the leaf, in the given order.
fn leaf_group_of(dims: &[Dimensions], order: &Vec<usize>, max: usize, Ghost(b): Ghost<Batch>) -> (r:
    Vec<usize>)
    requires
        dims@ == b.dims,
        positions(order@) == b.order(),
        max == b.max_height(),
        forall|k: int| 0 <= k < order@.len() ==> (#[trigger] order@[k]) < dims@.len(),
    ensures
        positions(r@) == b.leaf_group(),
        forall|k: int| 0 <= k < r@.len() ==> (#[trigger] r@[k]) < dims@.len(),
{
    let ghost f = |i: int| b.at_leaf(i);
    let ghost o = positions(order@);
    let mut r: Vec<usize> = Vec::new();
    let mut i: usize = 0;
    proof {
        reveal(Seq::filter);
        assert(positions(r@) =~= o.take(0).filter(f));
    }
    while i < order.len()
        invariant
            i <= order.len(),
            dims@ == b.dims,
            o == positions(order@),
            max == b.max_height(),
            f == (|i: int| b.at_leaf(i)),
            forall|k: int| 0 <= k < order@.len() ==> (#[trigger] order@[k]) < dims@.len(),
            positions(r@) == o.take(i as int).filter(f),
            forall|k: int| 0 <= k < r@.len() ==> (#[trigger] r@[k]) < dims@.len(),
        decreases order.len() - i,
    {
        let m: usize = order[i];
        let ghost r0 = r@;
        proof {
            reveal(Seq::filter);
            assert(o.take(i + 1).drop_last() =~= o.take(i as int));
            assert(o.take(i + 1).last() == m);
        }
        if max <= 1 || dims[m].height > max / 2 {
            r.push(m);
            proof {
                assert(f(m as int));
                assert(positions(r@) =~= positions(r0).push(m as int));
            }
        }
        i += 1;
    }
    proof {
        assert(o.take(i as int) =~= o);
    }
    r
}

/// The matrices of a height.
fn group_of(dims: &[Dimensions], h: usize, Ghost(b): Ghost<Batch>) -> (r: Vec<usize>)
    requires
        dims@ == b.dims,
    ensures
        positions(r@) == b.group_at(h as int),
        forall|k: int| 0 <= k < r@.len() ==> (#[trigger] r@[k]) < dims@.len(),
{
    let ghost f = |i: int| b.dims[i].height == h as int;
    let mut r: Vec<usize> = Vec::new();
    let mut i: usize = 0;
    proof {
        reveal(Seq::filter);
        assert(positions(r@) =~= indices(0).filter(f));
    }
    while i < dims.len()
        invariant
            i <= dims.len(),
            dims@ == b.dims,
            f == (|i: int| b.dims[i].height == h as int),
            positions(r@) == indices(i as nat).filter(f),
            forall|k: int| 0 <= k < r@.len() ==> (#[trigger] r@[k]) < dims@.len(),
        decreases dims.len() - i,
    {
        let ghost r0 = r@;
        proof {
            reveal(Seq::filter);
            assert(indices((i + 1) as nat).drop_last() =~= indices(i as nat));
            assert(indices((i + 1) as nat).last() == i);
        }
        if dims[i].height == h {
            r.push(i);
            proof {
                assert(f(i as int));
                assert(positions(r@) =~= positions(r0).push(i as int));
            }
        }
        i += 1;
    }
    r
}

/// The rows of a group, one after the other.
pub(crate) fn join_rows(rows: &[Vec<Val>], group: &Vec<usize>) -> (r: Vec<Val>)
    requires
        forall|k: int| 0 <= k < group@.len() ==> (#[trigger] group@[k]) < rows@.len(),
    ensures
        vals(r@) == joint_row(row_views(rows@), positions(group@)),
{
    let ghost g = positions(group@);
    let mut r: Vec<Val> = Vec::new();
    let mut i: usize = 0;
    proof {
        assert(vals(r@) =~= joint_row(row_views(rows@), g.take(0)));
    }
    while i < group.len()
        invariant
            i <= group.len(),
            g == positions(group@),
            forall|k: int| 0 <= k < group@.len() ==> (#[trigger] group@[k]) < rows@.len(),
            vals(r@) == joint_row(row_views(rows@), g.take(i as int)),
        decreases group.len() - i,
    {
        let row: &Vec<Val> = &rows[group[i]];
        let ghost r0 = r@;
        push_row(&mut r, row);
        proof {
            assert(vals(r@) =~= vals(r0) + vals(row@));
            assert(g.take(i + 1).drop_last() =~= g.take(i as int));
            assert(g.take(i + 1).last() == group@[i as int]);
        }
        i += 1;
    }
    proof {
        assert(g.take(i as int) =~= g);
    }
    r
}

/// Appends a row.
fn push_row(r: &mut Vec<Val>, row: &Vec<Val>)
    ensures
        final(r)@ == old(r)@ + row@,
{
    let mut i: usize = 0;
    let ghost r0 = r@;
    proof {
        assert(r@ =~= r0 + row@.take(0));
    }
    while i < row.len()
        invariant
            i <= row.len(),
            r@ == r0 + row@.take(i as int),
        decreases row.len() - i,
    {
        r.push(row[i]);
        i += 1;
        proof {
            assert(r@ =~= r0 + row@.take(i as int));
        }
    }
    proof {
        assert(row@.take(i as int) =~= row@);
    }
}

/// A digest paired with its sibling.
fn pair_sided(digest: [u8; 32], sib: [u8; 32], right: bool) -> (r: [u8; 32])
    ensures
        r@ == sided(digest@, sib@, right),
{
    if right {
        compress_digests(sib, digest)
    } else {
        compress_digests(digest, sib)
    }
}

/// Rows being recorded with their digests.
struct LeafRecords {
    rows: Vec<Vec<Val>>,
    keccs: Vec<Keccak256StarkProof>,
    digests: Vec<[u8; 32]>,
}

impl LeafRecords {
    spec fn are(self, want: Seq<Seq<int>>) -> bool {
        leaves_are(self.rows@, self.keccs@, self.digests@, want)
    }

    /// Records one more row; returns its digest.
    fn record(&mut self, row: Vec<Val>, Ghost(want): Ghost<Seq<Seq<int>>>) -> (d: [u8; 32])
        requires
            old(self).are(want),
        ensures
            final(self).are(want.push(vals(row@))),
            d@ == poseidon_leaf(vals(row@)),
    {
        let d = hash_val_leaf(row.as_slice());
        let len: u32 = row_msg_len(row.len());
        self.rows.push(row);
        self.keccs.push(Keccak256StarkProof { msg_len: len, digest: d, stark: Vec::new() });
        self.digests.push(d);
        d
    }
}

/// Records the rows one by one, tallest matrix first.
fn record_singles(rows: &[Vec<Val>], order: &Vec<usize>, Ghost(b): Ghost<Batch>) -> (r: LeafRecords)
    requires
        row_views(rows@) == b.rows,
        positions(order@) == b.order(),
        order@.len() == b.dims.len(),
        b.dims.len() == b.rows.len(),
        forall|k: int| 0 <= k < order@.len() ==> (#[trigger] order@[k]) < rows@.len(),
    ensures
        r.are(Seq::new(b.dims.len(), |i: int| b.rows[b.order()[i]])),
{
    let ghost want = Seq::new(b.dims.len(), |i: int| b.rows[b.order()[i]]);
    let mut r = LeafRecords { rows: Vec::new(), keccs: Vec::new(), digests: Vec::new() };
    let mut i: usize = 0;
    while i < order.len()
        invariant
            i <= order.len(),
            row_views(rows@) == b.rows,
            positions(order@) == b.order(),
            order@.len() == b.dims.len(),
            forall|k: int| 0 <= k < order@.len() ==> (#[trigger] order@[k]) < rows@.len(),
            want == Seq::new(b.dims.len(), |i: int| b.rows[b.order()[i]]),
            r.are(want.take(i as int)),
        decreases order.len() - i,
    {
        let mut row: Vec<Val> = Vec::new();
        push_row(&mut row, &rows[order[i]]);
        proof {
            assert(row@ =~= rows@[order@[i as int] as int]@);
            assert(positions(order@)[i as int] == order@[i as int]);
            assert(want.take(i + 1) =~= want.take(i as int).push(vals(row@)));
        }
        let _ = r.record(row, Ghost(want.take(i as int)));
        i += 1;
    }
    proof {
        assert(want.take(i as int) =~= want);
    }
    r
}

/// Where a matrix stands in the order.
fn position_in(order: &Vec<usize>, i: usize, Ghost(b): Ghost<Batch>) -> (r: usize)
    requires
        positions(order@) == b.order(),
        i < b.dims.len(),
    ensures
        r == b.order().index_of(i as int),
{
    let ghost o = positions(order@);
    proof {
        lemma_tallest_first(b.heights());
        assert(o.contains(i as int));
    }
    let ghost at = o.index_of(i as int);
    proof {
        assert(0 <= at < o.len() && o[at] == i);
    }
    let mut p: usize = 0;
    while order[p] != i
        invariant
            p <= at < order@.len(),
            o == positions(order@),
            o[at] == i,
        decreases order.len() - p,
    {
        proof {
            assert(o[p as int] == order@[p as int]);
        }
        p += 1;
    }
    proof {
        assert(o[p as int] == order@[p as int]);
    }
    p
}

/// Whether every row has the width of its matrix.
pub(crate) fn widths_match(rows: &[Vec<Val>], dims: &[Dimensions]) -> (r: bool)
    requires
        rows@.len() == dims@.len(),
    ensures
        r == !(exists|i: int|
            0 <= i < rows@.len() && (#[trigger] row_views(rows@)[i]).len() != dims@[i].width),
{
    let mut i: usize = 0;
    while i < rows.len()
        invariant
            i <= rows.len(),
            rows@.len() == dims@.len(),
            forall|j: int| 0 <= j < i ==> (#[trigger] rows@[j])@.len() == dims@[j].width,
        decreases rows.len() - i,
    {
        if rows[i].len() != dims[i].width {
            proof {
                assert(row_views(rows@)[i as int].len() != dims@[i as int].width);
            }
            return false;
        }
        i += 1;
    }
    true
}

/// The outcome of recording a batch path.
pub open spec fn batch_outcome(
    b: Batch,
    root: Seq<u8>,
    r: Result<FriChalBatchPathProof, BatchError>,
) -> bool {
    match b.report(root) {
        Some(e) => r == Err::<FriChalBatchPathProof, BatchError>(e),
        None => r matches Ok(p) && b.is_record(p),
    }
}

/// Records the path of a batch opening, if it leads to the expected root.
pub fn generate_chal_batch_path(
    opened_vals: &[Vec<Val>],
    dimensions: &[Dimensions],
    index: usize,
    siblings: &[[u8; 32]],
    expected_root: &[u8; 32],
) -> (r: Result<FriChalBatchPathProof, BatchError>)
    ensures
        batch_outcome(
            (Batch {
                rows: row_views(opened_vals@),
                dims: dimensions@,
                siblings: siblings@,
                index: index as int,
            }),
            expected_root@,
            r,
        ),
{
    generate_chal_batch_path_inner(opened_vals, dimensions, index, siblings, expected_root)
}

/// As [`generate_chal_batch_path`]: a digest-only path has no nested proofs to drop.
pub fn generate_chal_batch_path_drop_nested(
    opened_vals: &[Vec<Val>],
    dimensions: &[Dimensions],
    index: usize,
    siblings: &[[u8; 32]],
    expected_root: &[u8; 32],
) -> (r: Result<FriChalBatchPathProof, BatchError>)
    ensures
        batch_outcome(
            (Batch {
                rows: row_views(opened_vals@),
                dims: dimensions@,
                siblings: siblings@,
                index: index as int,
            }),
            expected_root@,
            r,
        ),
{
    generate_chal_batch_path_inner(opened_vals, dimensions, index, siblings, expected_root)
}

fn generate_chal_batch_path_inner(
    opened_vals: &[Vec<Val>],
    dimensions: &[Dimensions],
    index: usize,
    siblings: &[[u8; 32]],
    expected_root: &[u8; 32],
) -> (r: Result<FriChalBatchPathProof, BatchError>)
    ensures
        batch_outcome(
            (Batch {
                rows: row_views(opened_vals@),
                dims: dimensions@,
                siblings: siblings@,
                index: index as int,
            }),
            expected_root@,
            r,
        ),
{
    let ghost b = Batch {
        rows: row_views(opened_vals@),
        dims: dimensions@,
        siblings: siblings@,
        index: index as int,
    };
    if dimensions.len() != opened_vals.len() || dimensions.len() == 0 {
        return Err(BatchError::Shape);
    }
    if siblings.len() > FRI_MMCS_MAX_DEPTH {
        return Err(BatchError::Depth);
    }
    let max_height: usize = max_height_of(dimensions);
    proof {
        assert(b.heights() =~= heights_of(dimensions@));
    }
    let steps: usize = match log2_strict(max_height) {
        Some(k) => k,
        None => {
            return Err(BatchError::Height);
        },
    };
    if index >= max_height {
        return Err(BatchError::Index);
    }
    if !widths_match(opened_vals, dimensions) {
        return Err(BatchError::Width);
    }
    if siblings.len() < steps {
        return Err(BatchError::TooFewSiblings);
    }
    if siblings.len() > steps {
        return Err(BatchError::TooManySiblings);
    }
    let order: Vec<usize> = order_of(dimensions);
    let mut leaves = record_singles(opened_vals, &order, Ghost(b));
    let leaf_group: Vec<usize> = leaf_group_of(dimensions, &order, max_height, Ghost(b));
    let leaf_row: Vec<Val> = join_rows(opened_vals, &leaf_group);
    let ghost singles = Seq::new(b.dims.len(), |i: int| b.rows[b.order()[i]]);
    let mut digest: [u8; 32] = if leaf_group.len() == 1 {
        hash_val_leaf(leaf_row.as_slice())
    } else {
        leaves.record(leaf_row, Ghost(singles))
    };
    proof {
        assert(b.leaf_group().len() == leaf_group@.len());
        assert(leaves.are(b.recorded_rows(0)));
    }
    let mut sib_compresses: Vec<Keccak256StarkProof> = Vec::new();
    let mut sib_layer_digests: Vec<[u8; 32]> = Vec::new();
    let mut inject_compresses: Vec<Keccak256StarkProof> = Vec::new();
    let mut inject_digests: Vec<[u8; 32]> = Vec::new();
    let mut inject_leaf_indices: Vec<u32> = Vec::new();
    let mut height: usize = max_height;
    let mut idx: usize = index;
    let mut k: usize = 0;
    while k < steps
        invariant
            k <= steps,
            steps == siblings.len(),
            b == (Batch {
                rows: row_views(opened_vals@),
                dims: dimensions@,
                siblings: siblings@,
                index: index as int,
            }),
            opened_vals@.len() == dimensions@.len(),
            positions(order@) == b.order(),
            height == shr(b.max_height(), k as nat),
            idx == shr(b.index, k as nat),
            digest@ == b.after(k as nat),
            leaves.are(b.recorded_rows(k as nat)),
            pair_stubs_are(sib_compresses@, b.layers(k as nat)),
            digests_are(sib_layer_digests@, b.layers(k as nat)),
            pair_stubs_are(inject_compresses@, b.joined(k as nat)),
            digests_are(inject_digests@, b.joined(k as nat)),
            inject_leaf_indices@ == b.joined_at(k as nat),
        decreases steps - k,
    {
        proof {
            lemma_shr_step(b.max_height(), k as nat);
            lemma_shr_step(b.index, k as nat);
            assert(b.layers((k + 1) as nat) =~= b.layers(k as nat).push(b.layer((k + 1) as nat)));
        }
        digest = pair_sided(digest, siblings[k], idx % 2 == 1);
        sib_layer_digests.push(digest);
        sib_compresses.push(
            Keccak256StarkProof { msg_len: 64, digest, stark: Vec::new() },
        );
        idx = idx / 2;
        height = height / 2;
        let group: Vec<usize> = group_of(dimensions, height, Ghost(b));
        proof {
            assert(b.joining((k + 1) as nat) == positions(group@));
            assert(b.joining((k + 1) as nat).len() == group@.len());
        }
        if group.len() > 0 {
            let row: Vec<Val> = join_rows(opened_vals, &group);
            let joint: [u8; 32] = if group.len() == 1 {
                hash_val_leaf(row.as_slice())
            } else {
                leaves.record(row, Ghost(b.recorded_rows(k as nat)))
            };
            digest = compress_digests(digest, joint);
            inject_digests.push(digest);
            inject_compresses.push(
                Keccak256StarkProof { msg_len: 64, digest, stark: Vec::new() },
            );
            let at: usize = position_in(&order, group[0], Ghost(b));
            inject_leaf_indices.push(at as u32);
        }
        k += 1;
    }
    if !same_digest(&digest, expected_root) {
        return Err(BatchError::RootMismatch);
    }
    Ok(
        FriChalBatchPathProof {
            index: idx as u32,
            siblings: copy_digests(siblings),
            leaf_rows: leaves.rows,
            leaf_keccs: leaves.keccs,
            leaf_digests: leaves.digests,
            sib_compresses,
            sib_layer_digests,
            inject_compresses,
            inject_digests,
            inject_leaf_indices,
        },
    )
}

/// The running digest after the matrices of height `height` have joined, if any do.
fn join_at(
    rows: &[Vec<Val>],
    dims: &[Dimensions],
    height: usize,
    digest: [u8; 32],
    Ghost(b): Ghost<Batch>,
    Ghost(k): Ghost<nat>,
) -> (r: Option<[u8; 32]>)
    requires
        row_views(rows@) == b.rows,
        dims@ == b.dims,
        b.dims.len() == b.rows.len(),
        height == shr(b.max_height(), k),
        k >= 1,
        digest@ == b.layer(k),
    ensures
        r is None <==> b.joining(k).len() == 0,
        r matches Some(d) ==> d@ == b.after(k),
        r is None ==> digest@ == b.after(k),
{
    let group: Vec<usize> = group_of(dims, height, Ghost(b));
    proof {
        assert(b.joining(k).len() == group@.len());
    }
    if group.len() == 0 {
        return None;
    }
    let row: Vec<Val> = join_rows(rows, &group);
    Some(compress_digests(digest, hash_val_leaf(row.as_slice())))
}

/// Whether the rows, tallest first, and their digests are recorded.
fn leaves_recorded(
    rows: &[Vec<Val>],
    order: &Vec<usize>,
    proof: &FriChalBatchPathProof,
    Ghost(b): Ghost<Batch>,
) -> (r: bool)
    requires
        row_views(rows@) == b.rows,
        positions(order@) == b.order(),
        order@.len() == b.dims.len(),
        forall|k: int| 0 <= k < order@.len() ==> (#[trigger] order@[k]) < rows@.len(),
        order@.len() <= proof.leaf_rows@.len(),
        order@.len() <= proof.leaf_digests@.len(),
        order@.len() <= proof.leaf_keccs@.len(),
    ensures
        r == (forall|i: int| 0 <= i < b.dims.len() ==> #[trigger] b.leaf_ok(*proof, i)),
{
    let mut i: usize = 0;
    while i < order.len()
        invariant
            i <= order.len(),
            row_views(rows@) == b.rows,
            positions(order@) == b.order(),
            order@.len() == b.dims.len(),
            forall|k: int| 0 <= k < order@.len() ==> (#[trigger] order@[k]) < rows@.len(),
            order@.len() <= proof.leaf_rows@.len(),
            order@.len() <= proof.leaf_digests@.len(),
            order@.len() <= proof.leaf_keccs@.len(),
            forall|j: int| 0 <= j < i ==> #[trigger] b.leaf_ok(*proof, j),
        decreases order.len() - i,
    {
        let row: &Vec<Val> = &rows[order[i]];
        proof {
            assert(b.order()[i as int] == order@[i as int]);
        }
        let d = hash_val_leaf(row.as_slice());
        if !same_row(proof.leaf_rows[i].as_slice(), row.as_slice()) || !same_digest(
            &d,
            &proof.leaf_digests[i],
        ) || !same_digest(&d, &proof.leaf_keccs[i].digest) {
            proof {
                assert(!b.leaf_ok(*proof, i as int));
            }
            return false;
        }
        proof {
            assert(b.leaf_ok(*proof, i as int));
        }
        i += 1;
    }
    true
}

/// Whether the rows are recorded, tallest first.
fn rows_recorded(
    rows: &[Vec<Val>],
    order: &Vec<usize>,
    proof: &FriChalBatchPathProof,
    Ghost(b): Ghost<Batch>,
) -> (r: bool)
    requires
        row_views(rows@) == b.rows,
        positions(order@) == b.order(),
        order@.len() == b.dims.len(),
        forall|k: int| 0 <= k < order@.len() ==> (#[trigger] order@[k]) < rows@.len(),
        order@.len() <= proof.leaf_rows@.len(),
    ensures
        r == (forall|i: int|
            0 <= i < b.dims.len() ==> vals((#[trigger] proof.leaf_rows@[i])@) == b.rows[b.order()[i]]),
{
    let mut i: usize = 0;
    while i < order.len()
        invariant
            i <= order.len(),
            row_views(rows@) == b.rows,
            positions(order@) == b.order(),
            order@.len() == b.dims.len(),
            forall|k: int| 0 <= k < order@.len() ==> (#[trigger] order@[k]) < rows@.len(),
            order@.len() <= proof.leaf_rows@.len(),
            forall|j: int|
                0 <= j < i ==> vals((#[trigger] proof.leaf_rows@[j])@) == b.rows[b.order()[j]],
        decreases order.len() - i,
    {
        proof {
            assert(b.order()[i as int] == order@[i as int]);
        }
        if !same_row(proof.leaf_rows[i].as_slice(), rows[order[i]].as_slice()) {
            proof {
                assert(vals(proof.leaf_rows@[i as int]@) != b.rows[b.order()[i as int]]);
            }
            return false;
        }
        i += 1;
    }
    true
}

/// Whether the joint leaf row is among the extra entries.
fn joint_leaf_recorded(
    from: usize,
    digest: &[u8; 32],
    proof: &FriChalBatchPathProof,
    Ghost(b): Ghost<Batch>,
) -> (r: bool)
    requires
        from == b.dims.len(),
        digest@ == b.after(0),
    ensures
        r == b.has_joint_leaf(*proof),
{
    let mut i: usize = from;
    while i < proof.leaf_rows.len() && i < proof.leaf_digests.len() && i < proof.leaf_keccs.len()
        invariant
            from <= i,
            from == b.dims.len(),
            digest@ == b.after(0),
            forall|j: int| from <= j < i ==> !#[trigger] b.joint_leaf(*proof, j),
        decreases proof.leaf_rows.len() - i,
    {
        let d = hash_val_leaf(proof.leaf_rows[i].as_slice());
        if same_digest(&proof.leaf_digests[i], digest) && same_digest(&d, digest) && same_digest(
            &proof.leaf_keccs[i].digest,
            digest,
        ) {
            proof {
                assert(b.joint_leaf(*proof, i as int));
            }
            return true;
        }
        proof {
            assert(!b.joint_leaf(*proof, i as int));
        }
        i += 1;
    }
    false
}

/// Checks a full record of a batch path digest by digest.
pub fn verify_chal_batch_path_replay(
    opened_vals: &[Vec<Val>],
    dimensions: &[Dimensions],
    index: usize,
    expected_root: &[u8; 32],
    proof: &FriChalBatchPathProof,
) -> (r: bool)
    ensures
        r == (Batch {
            rows: row_views(opened_vals@),
            dims: dimensions@,
            siblings: proof.siblings@,
            index: index as int,
        }).replay_valid(expected_root@, *proof),
{
    let ghost b = Batch {
        rows: row_views(opened_vals@),
        dims: dimensions@,
        siblings: proof.siblings@,
        index: index as int,
    };
    let n: usize = dimensions.len();
    if n != opened_vals.len() {
        return false;
    }
    let max_height: usize = max_height_of(dimensions);
    proof {
        assert(b.heights() =~= heights_of(dimensions@));
    }
    let steps: usize = match log2_strict(max_height) {
        Some(k) => k,
        None => {
            return false;
        },
    };
    if proof.leaf_keccs.len() < n || proof.leaf_rows.len() < n || proof.leaf_digests.len() < n {
        return false;
    }
    let order: Vec<usize> = order_of(dimensions);
    if !leaves_recorded(opened_vals, &order, proof, Ghost(b)) {
        return false;
    }
    let leaf_group: Vec<usize> = leaf_group_of(dimensions, &order, max_height, Ghost(b));
    let leaf_row: Vec<Val> = join_rows(opened_vals, &leaf_group);
    let mut digest: [u8; 32] = hash_val_leaf(leaf_row.as_slice());
    proof {
        assert(b.leaf_group().len() == leaf_group@.len());
    }
    if leaf_group.len() != 1 && !joint_leaf_recorded(n, &digest, proof, Ghost(b)) {
        return false;
    }
    let mut height: usize = max_height;
    let mut idx: usize = index;
    let mut joins: usize = 0;
    let mut k: usize = 0;
    while k < steps
        invariant
            k <= steps,
            steps == b.steps(),
            b == (Batch {
                rows: row_views(opened_vals@),
                dims: dimensions@,
                siblings: proof.siblings@,
                index: index as int,
            }),
            b.dims.len() == b.rows.len(),
            height == shr(b.max_height(), k as nat),
            idx == shr(b.index, k as nat),
            digest@ == b.after(k as nat),
            joins == b.joined(k as nat).len(),
            joins <= k,
            forall|j: nat| 1 <= j <= k ==> #[trigger] b.level_ok(*proof, j),
        decreases steps - k,
    {
        let ghost j: nat = (k + 1) as nat;
        proof {
            lemma_shr_step(b.max_height(), k as nat);
            lemma_shr_step(b.index, k as nat);
        }
        if k >= proof.siblings.len() || k >= proof.sib_compresses.len() || k
            >= proof.sib_layer_digests.len() {
            proof {
                assert(!b.level_ok(*proof, j));
            }
            return false;
        }
        digest = pair_sided(digest, proof.siblings[k], idx % 2 == 1);
        proof {
            assert(digest@ == b.layer(j));
        }
        if !same_digest(&digest, &proof.sib_layer_digests[k]) || !same_digest(
            &digest,
            &proof.sib_compresses[k].digest,
        ) {
            proof {
                assert(!b.level_ok(*proof, j));
            }
            return false;
        }
        idx = idx / 2;
        height = height / 2;
        if let Some(next) = join_at(opened_vals, dimensions, height, digest, Ghost(b), Ghost(j)) {
            digest = next;
            if joins >= proof.inject_compresses.len() || joins >= proof.inject_digests.len()
                || !same_digest(&digest, &proof.inject_digests[joins]) || !same_digest(
                &digest,
                &proof.inject_compresses[joins].digest,
            ) {
                proof {
                    assert(!b.level_ok(*proof, j));
                }
                return false;
            }
            joins += 1;
        }
        proof {
            assert(b.level_ok(*proof, j));
        }
        k += 1;
    }
    steps == proof.siblings.len() && same_digest(&digest, expected_root)
}

/// Checks a record of a batch path whose digests may have been left out.
pub fn verify_chal_batch_path_digests(
    opened_vals: &[Vec<Val>],
    dimensions: &[Dimensions],
    index: usize,
    expected_root: &[u8; 32],
    proof: &FriChalBatchPathProof,
) -> (r: bool)
    ensures
        r == (Batch {
            rows: row_views(opened_vals@),
            dims: dimensions@,
            siblings: proof.siblings@,
            index: index as int,
        }).digests_valid(expected_root@, *proof),
{
    let ghost b = Batch {
        rows: row_views(opened_vals@),
        dims: dimensions@,
        siblings: proof.siblings@,
        index: index as int,
    };
    let n: usize = dimensions.len();
    if n != opened_vals.len() {
        return false;
    }
    let max_height: usize = max_height_of(dimensions);
    proof {
        assert(b.heights() =~= heights_of(dimensions@));
    }
    let steps: usize = match log2_strict(max_height) {
        Some(k) => k,
        None => {
            return false;
        },
    };
    let carried: bool = proof.leaf_digests.len() > 0;
    if carried && (proof.leaf_keccs.len() < n || proof.leaf_digests.len() < n) {
        return false;
    }
    if proof.leaf_rows.len() < n {
        return false;
    }
    let order: Vec<usize> = order_of(dimensions);
    if !rows_recorded(opened_vals, &order, proof, Ghost(b)) {
        return false;
    }
    if carried && !leaves_recorded(opened_vals, &order, proof, Ghost(b)) {
        return false;
    }
    let leaf_group: Vec<usize> = leaf_group_of(dimensions, &order, max_height, Ghost(b));
    let leaf_row: Vec<Val> = join_rows(opened_vals, &leaf_group);
    let mut digest: [u8; 32] = hash_val_leaf(leaf_row.as_slice());
    proof {
        assert(b.leaf_group().len() == leaf_group@.len());
    }
    if carried && leaf_group.len() != 1 && !joint_leaf_recorded(n, &digest, proof, Ghost(b)) {
        return false;
    }
    let mut height: usize = max_height;
    let mut idx: usize = index;
    let mut joins: usize = 0;
    let mut k: usize = 0;
    while k < steps
        invariant
            k <= steps,
            steps == b.steps(),
            b == (Batch {
                rows: row_views(opened_vals@),
                dims: dimensions@,
                siblings: proof.siblings@,
                index: index as int,
            }),
            b.dims.len() == b.rows.len(),
            carried == (proof.leaf_digests@.len() > 0),
            height == shr(b.max_height(), k as nat),
            idx == shr(b.index, k as nat),
            digest@ == b.after(k as nat),
            joins == b.joined(k as nat).len(),
            joins <= k,
            forall|j: nat| 1 <= j <= k ==> #[trigger] b.digest_level_ok(*proof, j),
        decreases steps - k,
    {
        let ghost j: nat = (k + 1) as nat;
        proof {
            lemma_shr_step(b.max_height(), k as nat);
            lemma_shr_step(b.index, k as nat);
        }
        if k >= proof.siblings.len() || (carried && k >= proof.sib_layer_digests.len()) {
            proof {
                assert(!b.digest_level_ok(*proof, j));
            }
            return false;
        }
        digest = pair_sided(digest, proof.siblings[k], idx % 2 == 1);
        proof {
            assert(digest@ == b.layer(j));
        }
        if carried && !same_digest(&digest, &proof.sib_layer_digests[k]) {
            proof {
                assert(!b.digest_level_ok(*proof, j));
            }
            return false;
        }
        idx = idx / 2;
        height = height / 2;
        if let Some(next) = join_at(opened_vals, dimensions, height, digest, Ghost(b), Ghost(j)) {
            digest = next;
            let kept: bool = if carried {
                joins < proof.inject_digests.len() && same_digest(
                    &digest,
                    &proof.inject_digests[joins],
                )
            } else {
                joins < proof.inject_leaf_indices.len()
            };
            if !kept {
                proof {
                    assert(!b.digest_level_ok(*proof, j));
                }
                return false;
            }
            joins += 1;
        }
        proof {
            assert(b.digest_level_ok(*proof, j));
        }
        k += 1;
    }
    if steps != proof.siblings.len() || !same_digest(&digest, expected_root) {
        return false;
    }
    if carried {
        joins == proof.inject_digests.len()
    } else {
        joins == proof.inject_leaf_indices.len()
    }
}

/// A recorded batch path passes both of its checks.
pub proof fn lemma_recorded_batch_valid(b: Batch, root: Seq<u8>, p: FriChalBatchPathProof)
    requires
        batch_outcome(b, root, Ok(p)),
    ensures
        b.replay_valid(root, p),
        b.digests_valid(root, p),
{
    let n = b.steps();
    let rows = b.recorded_rows(n);
    lemma_recorded_rows(b, n);
    lemma_tallest_first(b.heights());
    assert forall|i: int| 0 <= i < b.dims.len() implies #[trigger] b.leaf_ok(p, i) by {
        assert(rows[i] == b.recorded_rows(0)[i]);
        assert(rows[i] == b.rows[b.order()[i]]);
        assert(vals(p.leaf_rows@[i]@) == rows[i]);
        assert(is_stub(p.leaf_keccs@[i], row_bytes(rows[i].len()), poseidon_leaf(rows[i])));
        assert(p.leaf_digests@[i]@ == poseidon_leaf(rows[i]));
    }
    if b.leaf_group().len() != 1 {
        let i = b.dims.len() as int;
        assert(rows[i] == b.recorded_rows(0)[i]);
        assert(rows[i] == b.group_row(b.leaf_group()));
        assert(vals(p.leaf_rows@[i]@) == rows[i]);
        assert(is_stub(p.leaf_keccs@[i], row_bytes(rows[i].len()), poseidon_leaf(rows[i])));
        assert(p.leaf_digests@[i]@ == poseidon_leaf(rows[i]));
        assert(b.joint_leaf(p, i));
    }
    assert forall|k: nat| 1 <= k <= n implies #[trigger] b.level_ok(p, k) by {
        assert(is_stub(p.sib_compresses@[k - 1], 64, b.layers(n)[k - 1]));
        assert(p.sib_layer_digests@[k - 1]@ == b.layers(n)[k - 1]);
        if b.joining(k).len() > 0 {
            let j = b.joined((k - 1) as nat).len() as int;
            lemma_joined_prefix(b, k, n);
            assert(b.joined(k)[j] == b.after(k));
            assert(b.joined(n)[j] == b.after(k));
            assert(is_stub(p.inject_compresses@[j], 64, b.joined(n)[j]));
            assert(p.inject_digests@[j]@ == b.joined(n)[j]);
        }
    }
    assert forall|k: nat| 1 <= k <= n implies #[trigger] b.digest_level_ok(p, k) by {
        assert(b.level_ok(p, k));
    }
    assert forall|i: int| 0 <= i < b.dims.len() implies vals((#[trigger] p.leaf_rows@[i])@) == b.rows[b.order()[i]] by {
        assert(b.leaf_ok(p, i));
    }
}

/// The first recorded rows are those of the matrices, followed by the joint leaf row.
proof fn lemma_recorded_rows(b: Batch, k: nat)
    ensures
        b.recorded_rows(k).len() >= b.recorded_rows(0).len(),
        forall|i: int|
            0 <= i < b.recorded_rows(0).len() ==> b.recorded_rows(k)[i] == #[trigger] b.recorded_rows(
                0,
            )[i],
    decreases k,
{
    if k > 0 {
        lemma_recorded_rows(b, (k - 1) as nat);
    }
}

/// What has joined stays at its place.
proof fn lemma_joined_prefix(b: Batch, k: nat, n: nat)
    requires
        1 <= k <= n,
    ensures
        b.joined(n).len() >= b.joined(k).len(),
        forall|i: int| 0 <= i < b.joined(k).len() ==> b.joined(n)[i] == #[trigger] b.joined(k)[i],
    decreases n,
{
    if k < n {
        lemma_joined_prefix(b, k, (n - 1) as nat);
    }
}

} // verus!
