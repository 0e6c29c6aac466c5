//! Merkle path helpers for the two tree hashes: Keccak-256 and the production Poseidon2 tree.
use p3_field::PrimeField32;
use p3_keccak::Keccak256Hash;
use p3_mersenne_31::Mersenne31;
use p3_symmetric::{
    CompressionFunctionFromHasher, CryptographicHasher, PseudoCompressionFunction,
    SerializingHasher,
};
use vstd::prelude::*;

use crate::agg_constraints::AGG_WIDTH;
use crate::bits::nat_bit;
use crate::field::{vals, Val};
use crate::keccak256_air::same_digest;
use crate::keccak_f_native::{keccak256_spec, row_bytes};
use crate::merkle::{is_path_layers, path_digest, path_root};
use crate::merkle_poseidon2::{
    compress_digests_poseidon, hash_val_leaf_poseidon, merkle_root_from_path_poseidon,
    poseidon_leaf, poseidon_pair,
};

verus! {

/// Typical number of siblings of an aggregation trace opening.
pub const AGG_LDE_MERKLE_DEPTH: usize = 3;

/// The Keccak pairing of two digests.
pub open spec fn keccak_pair() -> spec_fn(Seq<u8>, Seq<u8>) -> Seq<u8> {
    |l: Seq<u8>, r: Seq<u8>| keccak256_spec(l + r)
}

/// The Keccak leaf digest of a row.
pub open spec fn keccak_leaf(row: Seq<int>) -> Seq<u8> {
    keccak256_spec(row_bytes(row))
}

/// `p3_symmetric::SerializingHasher` over `p3_keccak::Keccak256Hash`, on field elements: the
/// Keccak-256 digest (`0x01` delimiter) of the elements' canonical little-endian bytes.
#[verifier::external_body]
fn keccak_field_hash(row: &[Val]) -> (r: [u8; 32])
    ensures
        r@ == keccak256_spec(row_bytes(vals(row@))),
{
    SerializingHasher::new(Keccak256Hash {}).hash_iter(
        row.iter().map(|v| Mersenne31::new(v.as_canonical_u32())),
    )
}

/// `p3_symmetric::CompressionFunctionFromHasher` over `p3_keccak::Keccak256Hash` with two
/// 32-byte inputs: the Keccak-256 digest (`0x01` delimiter) of the inputs joined.
#[verifier::external_body]
fn keccak_hasher_compress(left: [u8; 32], right: [u8; 32]) -> (r: [u8; 32])
    ensures
        r@ == keccak256_spec(left@ + right@),
{
    CompressionFunctionFromHasher::<Keccak256Hash, 2, 32>::new(Keccak256Hash {}).compress(
        [left, right],
    )
}

/// Keccak leaf digest of an aggregation-width row.
pub fn hash_lde_leaf(row: &[Val]) -> (r: [u8; 32])
    requires
        row@.len() == AGG_WIDTH,
    ensures
        r@ == keccak_leaf(vals(row@)),
{
    hash_val_leaf_keccak(row)
}

/// Keccak leaf digest of a row of any width.
pub fn hash_val_leaf_keccak(row: &[Val]) -> (r: [u8; 32])
    ensures
        r@ == keccak_leaf(vals(row@)),
{
    keccak_field_hash(row)
}

/// Leaf digest of the production tree.
pub fn hash_val_leaf(row: &[Val]) -> (r: [u8; 32])
    ensures
        r@ == poseidon_leaf(vals(row@)),
{
    hash_val_leaf_poseidon(row)
}

/// Keccak-256 of two joined digests.
pub fn compress_digests_keccak(left: [u8; 32], right: [u8; 32]) -> (r: [u8; 32])
    ensures
        r@ == keccak_pair()(left@, right@),
{
    keccak_hasher_compress(left, right)
}

/// Pairing of the production tree.
pub fn compress_digests(left: [u8; 32], right: [u8; 32]) -> (r: [u8; 32])
    ensures
        r@ == poseidon_pair()(left@, right@),
{
    compress_digests_poseidon(left, right)
}

/// The root a path leads to in the production tree.
pub fn merkle_root_from_path(leaf_digest: [u8; 32], siblings: &[[u8; 32]], index: usize) -> (r: [u8;
    32])
    ensures
        r@ == path_root(poseidon_pair(), leaf_digest@, siblings@, index as int),
{
    merkle_root_from_path_poseidon(leaf_digest, siblings, index)
}

/// The root a path leads to in a Keccak tree.
pub fn merkle_root_from_path_keccak(
    leaf_digest: [u8; 32],
    siblings: &[[u8; 32]],
    index: usize,
) -> (r: [u8; 32])
    ensures
        r@ == path_root(keccak_pair(), leaf_digest@, siblings@, index as int),
{
    let mut digest: [u8; 32] = leaf_digest;
    let mut idx: usize = index;
    let mut i: usize = 0;
    while i < siblings.len()
        invariant
            i <= siblings.len(),
            digest@ == path_digest(keccak_pair(), leaf_digest@, siblings@, index as int, i as nat),
            forall|j: nat| #[trigger] nat_bit(idx as int, j) == nat_bit(index as int, i as nat + j),
        decreases siblings.len() - i,
    {
        proof {
            assert(nat_bit(idx as int, 0) == nat_bit(index as int, i as nat + 0));
        }
        digest = if idx % 2 == 0 {
            compress_digests_keccak(digest, siblings[i])
        } else {
            compress_digests_keccak(siblings[i], digest)
        };
        let ghost idx0: usize = idx;
        idx = idx / 2;
        proof {
            assert forall|j: nat| #[trigger]
                nat_bit(idx as int, j) == nat_bit(index as int, (i + 1) as nat + j) by {
                assert(nat_bit(idx0 as int, j + 1) == nat_bit(index as int, i as nat + (j + 1)));
            }
        }
        i += 1;
    }
    digest
}

/// The digests of a production-tree path after each sibling.
pub fn path_layers(leaf_digest: [u8; 32], siblings: &[[u8; 32]], index: usize) -> (layers: Vec<
    [u8; 32],
>)
    ensures
        is_path_layers(layers@, poseidon_pair(), leaf_digest@, siblings@, index as int),
{
    let mut layers: Vec<[u8; 32]> = Vec::new();
    let mut digest: [u8; 32] = leaf_digest;
    let mut idx: usize = index;
    let mut i: usize = 0;
    while i < siblings.len()
        invariant
            i <= siblings.len(),
            layers@.len() == i,
            digest@ == path_digest(
                poseidon_pair(),
                leaf_digest@,
                siblings@,
                index as int,
                i as nat,
            ),
            forall|k: int|
                0 <= k < i ==> (#[trigger] layers@[k])@ == path_digest(
                    poseidon_pair(),
                    leaf_digest@,
                    siblings@,
                    index as int,
                    (k + 1) as nat,
                ),
            forall|j: nat| #[trigger] nat_bit(idx as int, j) == nat_bit(index as int, i as nat + j),
        decreases siblings.len() - i,
    {
        proof {
            assert(nat_bit(idx as int, 0) == nat_bit(index as int, i as nat + 0));
        }
        digest = if idx % 2 == 0 {
            compress_digests(digest, siblings[i])
        } else {
            compress_digests(siblings[i], digest)
        };
        layers.push(digest);
        let ghost idx0: usize = idx;
        idx = idx / 2;
        proof {
            assert forall|j: nat| #[trigger]
                nat_bit(idx as int, j) == nat_bit(index as int, (i + 1) as nat + j) by {
                assert(nat_bit(idx0 as int, j + 1) == nat_bit(index as int, i as nat + (j + 1)));
            }
        }
        i += 1;
    }
    layers
}

/// Checks an aggregation-width opening against a root of the production tree.
pub fn verify_agg_merkle_path(
    lde_row: &[Val],
    siblings: &[[u8; 32]],
    index: usize,
    expected_root: &[u8; 32],
) -> (r: bool)
    ensures
        r == (lde_row@.len() == AGG_WIDTH && siblings@.len() <= AGG_LDE_MERKLE_DEPTH + 2
            && path_root(poseidon_pair(), poseidon_leaf(vals(lde_row@)), siblings@, index as int)
            == expected_root@),
{
    if lde_row.len() != AGG_WIDTH {
        return false;
    }
    if siblings.len() > AGG_LDE_MERKLE_DEPTH + 2 {
        return false;
    }
    let leaf = hash_val_leaf(lde_row);
    let root = merkle_root_from_path(leaf, siblings, index);
    same_digest(&root, expected_root)
}

} // verus!
