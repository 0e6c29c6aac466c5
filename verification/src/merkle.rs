//! Binary Merkle paths over 32-byte digests.
use vstd::prelude::*;

use crate::bits::nat_bit;
use crate::keccak256_air::same_digest;

verus! {

/// The digest after folding the first `n` siblings of a path into a leaf digest.
///
/// Bit `k` of the index says on which side the running digest stands at level `k`: on the
/// left where it is clear.
pub open spec fn path_digest(
    pair: spec_fn(Seq<u8>, Seq<u8>) -> Seq<u8>,
    leaf: Seq<u8>,
    siblings: Seq<[u8; 32]>,
    index: int,
    n: nat,
) -> Seq<u8>
    decreases n,
{
    if n == 0 {
        leaf
    } else {
        let d = path_digest(pair, leaf, siblings, index, (n - 1) as nat);
        let s = siblings[n - 1]@;
        if nat_bit(index, (n - 1) as nat) {
            pair(s, d)
        } else {
            pair(d, s)
        }
    }
}

/// The root a path leads to.
pub open spec fn path_root(
    pair: spec_fn(Seq<u8>, Seq<u8>) -> Seq<u8>,
    leaf: Seq<u8>,
    siblings: Seq<[u8; 32]>,
    index: int,
) -> Seq<u8> {
    path_digest(pair, leaf, siblings, index, siblings.len())
}

/// `layers` lists the digests of a path after each sibling.
pub open spec fn is_path_layers(
    layers: Seq<[u8; 32]>,
    pair: spec_fn(Seq<u8>, Seq<u8>) -> Seq<u8>,
    leaf: Seq<u8>,
    siblings: Seq<[u8; 32]>,
    index: int,
) -> bool {
    &&& layers.len() == siblings.len()
    &&& forall|i: int|
        0 <= i < layers.len() ==> (#[trigger] layers[i])@ == path_digest(
            pair,
            leaf,
            siblings,
            index,
            (i + 1) as nat,
        )
}

/// A path of no siblings leads to the leaf; one more sibling pairs the root so far with it.
pub proof fn lemma_path_root_push(
    pair: spec_fn(Seq<u8>, Seq<u8>) -> Seq<u8>,
    leaf: Seq<u8>,
    siblings: Seq<[u8; 32]>,
    index: int,
    sib: [u8; 32],
)
    ensures
        path_root(pair, leaf, Seq::empty(), index) == leaf,
        path_root(pair, leaf, siblings.push(sib), index) == if nat_bit(index, siblings.len()) {
            pair(sib@, path_root(pair, leaf, siblings, index))
        } else {
            pair(path_root(pair, leaf, siblings, index), sib@)
        },
{
    lemma_path_digest_prefix(pair, leaf, siblings, siblings.push(sib), index, siblings.len());
}

/// Folding the first `n` siblings reads no others.
pub proof fn lemma_path_digest_prefix(
    pair: spec_fn(Seq<u8>, Seq<u8>) -> Seq<u8>,
    leaf: Seq<u8>,
    a: Seq<[u8; 32]>,
    b: Seq<[u8; 32]>,
    index: int,
    n: nat,
)
    requires
        n <= a.len(),
        n <= b.len(),
        forall|i: int| 0 <= i < n ==> a[i] == b[i],
    ensures
        path_digest(pair, leaf, a, index, n) == path_digest(pair, leaf, b, index, n),
    decreases n,
{
    if n > 0 {
        lemma_path_digest_prefix(pair, leaf, a, b, index, (n - 1) as nat);
    }
}

/// Whether two digest lists are equal.
pub fn same_digests(a: &Vec<[u8; 32]>, b: &Vec<[u8; 32]>) -> (r: bool)
    ensures
        r == (a@ == b@),
{
    if a.len() != b.len() {
        return false;
    }
    let mut i: usize = 0;
    while i < a.len()
        invariant
            i <= a.len(),
            a@.len() == b@.len(),
            forall|j: int| 0 <= j < i ==> a@[j] == b@[j],
        decreases a.len() - i,
    {
        if !same_digest(&a[i], &b[i]) {
            return false;
        }
        i += 1;
    }
    proof {
        assert(a@ =~= b@);
    }
    true
}

/// Copies a digest list.
pub fn copy_digests(a: &[[u8; 32]]) -> (r: Vec<[u8; 32]>)
    ensures
        r@ == a@,
{
    let mut r: Vec<[u8; 32]> = Vec::new();
    let mut i: usize = 0;
    while i < a.len()
        invariant
            i <= a.len(),
            r@ == a@.take(i as int),
        decreases a.len() - i,
    {
        r.push(a[i]);
        proof {
            assert(r@ =~= a@.take(i + 1));
        }
        i += 1;
    }
    proof {
        assert(r@ =~= a@);
    }
    r
}

} // verus!
