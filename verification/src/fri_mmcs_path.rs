//! Digest-only Merkle paths of single-matrix openings in the production tree.
use vstd::prelude::*;

use crate::field::{vals, Val};
use crate::keccak256_air::{same_digest, Keccak256StarkProof};
use crate::merkle::{is_path_layers, path_digest, path_root};
use crate::merkle_keccak::{hash_val_leaf, path_layers};
use crate::merkle_poseidon2::{poseidon_leaf, poseidon_pair};

verus! {

/// Deepest path a certificate carries.
pub const FRI_MMCS_MAX_DEPTH: usize = 20;

/// A path as digests: the leaf digest and the digest after each sibling, repeated in hash
/// records whose proof bytes are empty.
#[derive(Debug, Clone, PartialEq, Eq)]
pub struct FriMmcsPathProof {
    pub depth: u32,
    pub leaf_width: u32,
    pub leaf_digest: [u8; 32],
    pub layer_digests: Vec<[u8; 32]>,
    pub fold_stark: Vec<u8>,
    pub leaf_keccak: Keccak256StarkProof,
    pub compress_starks: Vec<Keccak256StarkProof>,
}

/// Why no path record was made.
#[derive(Debug, Clone, Copy, PartialEq, Eq)]
pub enum PathError {
    /// No siblings, or more than [`FRI_MMCS_MAX_DEPTH`].
    Depth,
    /// The path does not lead to the expected root.
    RootMismatch,
}

/// Hash record `c` carries digest `d` of a message of `len` bytes and no proof bytes.
pub open spec fn is_stub(c: Keccak256StarkProof, len: u32, d: Seq<u8>) -> bool {
    c.msg_len == len && c.digest@ == d && c.stark@.len() == 0
}

/// The number of bytes of a row of `n` elements, modulo `2^32`.
pub open spec fn row_bytes(n: nat) -> u32 {
    ((4 * n) % 0x1_0000_0000) as u32
}

/// The number of bytes of a row of `n` elements, modulo `2^32`.
pub fn row_msg_len(n: usize) -> (r: u32)
    ensures
        r == row_bytes(n as nat),
{
    let low: usize = n % 0x4000_0000;
    proof {
        let q = n as int / 0x4000_0000;
        assert(n == 0x4000_0000 * q + low);
        vstd::arithmetic::div_mod::lemma_fundamental_div_mod_converse(
            4 * (n as int),
            0x1_0000_0000,
            q,
            4 * (low as int),
        );
    }
    (low * 4) as u32
}

/// `p` records the path of `row` along `siblings`.
pub open spec fn is_path_record(
    p: FriMmcsPathProof,
    row: Seq<int>,
    siblings: Seq<[u8; 32]>,
    index: int,
) -> bool {
    let leaf = poseidon_leaf(row);
    &&& p.depth == siblings.len()
    &&& p.leaf_width == row.len() as u32
    &&& p.leaf_digest@ == leaf
    &&& is_path_layers(p.layer_digests@, poseidon_pair(), leaf, siblings, index)
    &&& p.fold_stark@.len() == 0
    &&& is_stub(p.leaf_keccak, row_bytes(row.len()), leaf)
    &&& p.compress_starks@.len() == siblings.len()
    &&& forall|i: int|
        0 <= i < siblings.len() ==> is_stub(
            #[trigger] p.compress_starks@[i],
            64,
            path_digest(poseidon_pair(), leaf, siblings, index, (i + 1) as nat),
        )
}

/// Records the path of a row, if it leads to the expected root.
pub fn generate_fri_mmcs_path_proof(
    row: &[Val],
    siblings: &[[u8; 32]],
    index: usize,
    expected_root: &[u8; 32],
) -> (r: Result<FriMmcsPathProof, PathError>)
    ensures
        path_record_outcome(row@, siblings@, index as int, expected_root@, r),
{
    generate_fri_mmcs_path_proof_inner(row, siblings, index, expected_root)
}

/// As [`generate_fri_mmcs_path_proof`]: a digest-only path has no nested proofs to drop.
pub fn generate_fri_mmcs_path_proof_drop_nested(
    row: &[Val],
    siblings: &[[u8; 32]],
    index: usize,
    expected_root: &[u8; 32],
) -> (r: Result<FriMmcsPathProof, PathError>)
    ensures
        path_record_outcome(row@, siblings@, index as int, expected_root@, r),
{
    generate_fri_mmcs_path_proof_inner(row, siblings, index, expected_root)
}

/// Why a path cannot be recorded, if so.
pub open spec fn path_fault(
    row: Seq<int>,
    siblings: Seq<[u8; 32]>,
    index: int,
    root: Seq<u8>,
) -> Option<PathError> {
    if siblings.len() == 0 || siblings.len() > FRI_MMCS_MAX_DEPTH {
        Some(PathError::Depth)
    } else if path_root(poseidon_pair(), poseidon_leaf(row), siblings, index) != root {
        Some(PathError::RootMismatch)
    } else {
        None
    }
}

/// The outcome of recording a path.
pub open spec fn path_record_outcome(
    row: Seq<Val>,
    siblings: Seq<[u8; 32]>,
    index: int,
    root: Seq<u8>,
    r: Result<FriMmcsPathProof, PathError>,
) -> bool {
    match path_fault(vals(row), siblings, index, root) {
        Some(e) => r == Err::<FriMmcsPathProof, PathError>(e),
        None => r matches Ok(p) && is_path_record(p, vals(row), siblings, index),
    }
}

fn generate_fri_mmcs_path_proof_inner(
    row: &[Val],
    siblings: &[[u8; 32]],
    index: usize,
    expected_root: &[u8; 32],
) -> (r: Result<FriMmcsPathProof, PathError>)
    ensures
        path_record_outcome(row@, siblings@, index as int, expected_root@, r),
{
    let depth: usize = siblings.len();
    if depth == 0 || depth > FRI_MMCS_MAX_DEPTH {
        return Err(PathError::Depth);
    }
    let leaf_digest = hash_val_leaf(row);
    let leaf_keccak = Keccak256StarkProof {
        msg_len: row_msg_len(row.len()),
        digest: leaf_digest,
        stark: Vec::new(),
    };
    let layer_digests = path_layers(leaf_digest, siblings, index);
    if !same_digest(&layer_digests[depth - 1], expected_root) {
        return Err(PathError::RootMismatch);
    }
    let mut compress_starks: Vec<Keccak256StarkProof> = Vec::new();
    let mut i: usize = 0;
    while i < depth
        invariant
            i <= depth,
            depth == siblings@.len(),
            is_path_layers(
                layer_digests@,
                poseidon_pair(),
                leaf_digest@,
                siblings@,
                index as int,
            ),
            compress_starks@.len() == i,
            forall|k: int|
                0 <= k < i ==> is_stub(
                    #[trigger] compress_starks@[k],
                    64,
                    path_digest(
                        poseidon_pair(),
                        leaf_digest@,
                        siblings@,
                        index as int,
                        (k + 1) as nat,
                    ),
                ),
        decreases depth - i,
    {
        compress_starks.push(
            Keccak256StarkProof { msg_len: 64, digest: layer_digests[i], stark: Vec::new() },
        );
        i += 1;
    }
    Ok(
        FriMmcsPathProof {
            depth: depth as u32,
            leaf_width: row.len() as u32,
            leaf_digest,
            layer_digests,
            fold_stark: Vec::new(),
            leaf_keccak,
            compress_starks,
        },
    )
}

/// What a path record must satisfy for a row, siblings and root.
pub open spec fn path_record_valid(
    row: Seq<int>,
    siblings: Seq<[u8; 32]>,
    index: int,
    root: Seq<u8>,
    p: FriMmcsPathProof,
) -> bool {
    let leaf = poseidon_leaf(row);
    &&& siblings.len() == p.depth
    &&& p.compress_starks@.len() == p.depth
    &&& row.len() as u32 == p.leaf_width
    &&& 0 < p.depth <= FRI_MMCS_MAX_DEPTH
    &&& p.leaf_digest@ == leaf
    &&& p.leaf_keccak.digest@ == leaf
    &&& is_path_layers(p.layer_digests@, poseidon_pair(), leaf, siblings, index)
    &&& forall|i: int|
        0 <= i < p.depth ==> (#[trigger] p.compress_starks@[i]).digest@ == path_digest(
            poseidon_pair(),
            leaf,
            siblings,
            index,
            (i + 1) as nat,
        )
    &&& path_root(poseidon_pair(), leaf, siblings, index) == root
}

/// Checks a path record digest by digest.
pub fn verify_fri_mmcs_path_proof(
    row: &[Val],
    siblings: &[[u8; 32]],
    index: usize,
    expected_root: &[u8; 32],
    proof: &FriMmcsPathProof,
) -> (r: bool)
    ensures
        r == path_record_valid(vals(row@), siblings@, index as int, expected_root@, *proof),
{
    let depth: usize = proof.depth as usize;
    if siblings.len() != depth || proof.layer_digests.len() != depth
        || proof.compress_starks.len() != depth || row.len() as u32 != proof.leaf_width || depth
        == 0 || depth > FRI_MMCS_MAX_DEPTH {
        return false;
    }
    let leaf = hash_val_leaf(row);
    if !same_digest(&leaf, &proof.leaf_digest) || !same_digest(&leaf, &proof.leaf_keccak.digest) {
        return false;
    }
    let layers = path_layers(leaf, siblings, index);
    let mut i: usize = 0;
    while i < depth
        invariant
            i <= depth,
            depth == siblings@.len(),
            depth == proof.depth,
            depth == proof.layer_digests@.len(),
            depth == proof.compress_starks@.len(),
            leaf@ == poseidon_leaf(vals(row@)),
            is_path_layers(layers@, poseidon_pair(), leaf@, siblings@, index as int),
            forall|k: int|
                0 <= k < i ==> (#[trigger] proof.layer_digests@[k])@ == path_digest(
                    poseidon_pair(),
                    leaf@,
                    siblings@,
                    index as int,
                    (k + 1) as nat,
                ),
            forall|k: int|
                0 <= k < i ==> (#[trigger] proof.compress_starks@[k]).digest@ == path_digest(
                    poseidon_pair(),
                    leaf@,
                    siblings@,
                    index as int,
                    (k + 1) as nat,
                ),
        decreases depth - i,
    {
        if !same_digest(&layers[i], &proof.layer_digests[i]) || !same_digest(
            &layers[i],
            &proof.compress_starks[i].digest,
        ) {
            return false;
        }
        i += 1;
    }
    same_digest(&layers[depth - 1], expected_root)
}

/// A recorded path passes its own check.
pub proof fn lemma_recorded_path_valid(
    row: Seq<Val>,
    siblings: Seq<[u8; 32]>,
    index: int,
    root: Seq<u8>,
    p: FriMmcsPathProof,
)
    requires
        path_record_outcome(row, siblings, index, root, Ok(p)),
    ensures
        path_record_valid(vals(row), siblings, index, root, p),
{
}

} // verus!
