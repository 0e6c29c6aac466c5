//! Path records without nested proof bytes.
use vstd::prelude::*;

use crate::batch_path::FriChalBatchPathProof;
use crate::field::{vals, Val};
use crate::fri_mmcs_path::FriMmcsPathProof;
use crate::keccak256_air::{same_digest, Keccak256StarkProof};
use crate::keccak_f_native::KECCAK_RATE;
use crate::merkle::{is_path_layers, path_root};
use crate::merkle_keccak::{hash_val_leaf, merkle_root_from_path, path_layers};
use crate::merkle_poseidon2::{poseidon_leaf, poseidon_pair};

verus! {

/// Whether a row of this width fits one or two permutations.
pub fn m4b_width_eligible(leaf_width: usize) -> (r: bool)
    ensures
        r == (3 <= leaf_width && 4 * leaf_width <= 2 * KECCAK_RATE),
{
    leaf_width >= 3 && leaf_width <= 2 * KECCAK_RATE / 4
}

/// Hash record `b` is `a` without its proof bytes.
pub open spec fn record_stripped(a: Keccak256StarkProof, b: Keccak256StarkProof) -> bool {
    b.msg_len == a.msg_len && b.digest == a.digest && b.stark@.len() == 0
}

/// `b` lists the records of `a` without their proof bytes.
pub open spec fn records_stripped(a: Seq<Keccak256StarkProof>, b: Seq<Keccak256StarkProof>) -> bool {
    &&& b.len() == a.len()
    &&& forall|i: int| 0 <= i < a.len() ==> record_stripped(a[i], #[trigger] b[i])
}

/// No record carries proof bytes.
pub open spec fn bare(s: Seq<Keccak256StarkProof>) -> bool {
    forall|i: int| 0 <= i < s.len() ==> (#[trigger] s[i]).stark@.len() == 0
}

/// Drops the proof bytes of every record.
fn strip_records(v: &mut Vec<Keccak256StarkProof>)
    ensures
        records_stripped(old(v)@, final(v)@),
{
    let ghost v0 = v@;
    let n: usize = v.len();
    let mut i: usize = 0;
    while i < n
        invariant
            i <= n,
            n == v0.len(),
            v@.len() == n,
            forall|j: int| 0 <= j < i ==> record_stripped(v0[j], #[trigger] v@[j]),
            forall|j: int| i <= j < n ==> v@[j] == v0[j],
        decreases n - i,
    {
        let msg_len: u32 = v[i].msg_len;
        let digest: [u8; 32] = v[i].digest;
        v.set(i, Keccak256StarkProof { msg_len, digest, stark: Vec::new() });
        i += 1;
    }
}

/// Whether no record carries proof bytes.
fn records_bare(v: &Vec<Keccak256StarkProof>) -> (r: bool)
    ensures
        r == bare(v@),
{
    let mut i: usize = 0;
    while i < v.len()
        invariant
            i <= v.len(),
            forall|j: int| 0 <= j < i ==> (#[trigger] v@[j]).stark@.len() == 0,
        decreases v.len() - i,
    {
        if v[i].stark.len() != 0 {
            return false;
        }
        i += 1;
    }
    true
}

/// `b` is the batch path `a` without proof bytes.
pub open spec fn batch_stripped(a: FriChalBatchPathProof, b: FriChalBatchPathProof) -> bool {
    &&& b.index == a.index
    &&& b.siblings == a.siblings
    &&& b.leaf_rows == a.leaf_rows
    &&& b.leaf_digests == a.leaf_digests
    &&& b.sib_layer_digests == a.sib_layer_digests
    &&& b.inject_digests == a.inject_digests
    &&& b.inject_leaf_indices == a.inject_leaf_indices
    &&& records_stripped(a.leaf_keccs@, b.leaf_keccs@)
    &&& records_stripped(a.sib_compresses@, b.sib_compresses@)
    &&& records_stripped(a.inject_compresses@, b.inject_compresses@)
}

/// A batch path without proof bytes.
pub open spec fn batch_bare(b: FriChalBatchPathProof) -> bool {
    bare(b.leaf_keccs@) && bare(b.sib_compresses@) && bare(b.inject_compresses@)
}

/// Drops the nested proof bytes of a batch path; rows and digests stay.
pub fn strip_chal_batch_starks(batch: &mut FriChalBatchPathProof)
    ensures
        batch_stripped(*old(batch), *final(batch)),
{
    strip_records(&mut batch.leaf_keccs);
    strip_records(&mut batch.sib_compresses);
    strip_records(&mut batch.inject_compresses);
}

/// Whether a batch path carries no nested proof bytes.
pub fn batch_starks_stripped(batch: &FriChalBatchPathProof) -> (r: bool)
    ensures
        r == batch_bare(*batch),
{
    records_bare(&batch.leaf_keccs) && records_bare(&batch.sib_compresses) && records_bare(
        &batch.inject_compresses,
    )
}

/// `b` is the path `a` without proof bytes.
pub open spec fn path_stripped(a: FriMmcsPathProof, b: FriMmcsPathProof) -> bool {
    &&& b.depth == a.depth
    &&& b.leaf_width == a.leaf_width
    &&& b.leaf_digest == a.leaf_digest
    &&& b.layer_digests == a.layer_digests
    &&& b.fold_stark@.len() == 0
    &&& record_stripped(a.leaf_keccak, b.leaf_keccak)
    &&& records_stripped(a.compress_starks@, b.compress_starks@)
}

/// A path without proof bytes.
pub open spec fn path_bare(p: FriMmcsPathProof) -> bool {
    p.fold_stark@.len() == 0 && p.leaf_keccak.stark@.len() == 0 && bare(p.compress_starks@)
}

/// Drops the nested proof bytes of a path; digests and shape stay.
pub fn strip_fri_mmcs_path_starks(path: &mut FriMmcsPathProof)
    ensures
        path_stripped(*old(path), *final(path)),
{
    path.fold_stark = Vec::new();
    path.leaf_keccak.stark = Vec::new();
    strip_records(&mut path.compress_starks);
}

/// Whether a path carries no nested proof bytes.
pub fn path_starks_stripped(path: &FriMmcsPathProof) -> (r: bool)
    ensures
        r == path_bare(*path),
{
    path.fold_stark.len() == 0 && path.leaf_keccak.stark.len() == 0 && records_bare(
        &path.compress_starks,
    )
}

/// A path whose layer digests were left out.
pub open spec fn path_digestless(p: FriMmcsPathProof) -> bool {
    p.layer_digests@.len() == 0 && p.compress_starks@.len() == 0
}

/// Whether the layer digests of a path were left out.
pub fn path_digests_stripped(path: &FriMmcsPathProof) -> (r: bool)
    ensures
        r == path_digestless(*path),
{
    path.layer_digests.len() == 0 && path.compress_starks.len() == 0
}

/// What a path must satisfy whose digests may have been left out.
pub open spec fn path_digests_valid(
    row: Seq<int>,
    siblings: Seq<[u8; 32]>,
    index: int,
    root: Seq<u8>,
    p: FriMmcsPathProof,
) -> bool {
    let leaf = poseidon_leaf(row);
    &&& siblings.len() == p.depth
    &&& row.len() as u32 == p.leaf_width
    &&& p.depth > 0
    &&& !path_digestless(p) ==> {
        &&& p.compress_starks@.len() == p.depth
        &&& p.leaf_digest@ == leaf
        &&& p.leaf_keccak.digest@ == leaf
        &&& is_path_layers(p.layer_digests@, poseidon_pair(), leaf, siblings, index)
    }
    &&& path_root(poseidon_pair(), leaf, siblings, index) == root
}

/// Checks a path by its digests, as far as they are carried, and by its root.
pub fn verify_fri_mmcs_path_digests(
    row: &[Val],
    siblings: &[[u8; 32]],
    index: usize,
    expected_root: &[u8; 32],
    path: &FriMmcsPathProof,
) -> (r: bool)
    ensures
        r == path_digests_valid(vals(row@), siblings@, index as int, expected_root@, *path),
{
    let depth: usize = path.depth as usize;
    if siblings.len() != depth || row.len() as u32 != path.leaf_width || depth == 0 {
        return false;
    }
    let leaf = hash_val_leaf(row);
    if path_digests_stripped(path) {
        let root = merkle_root_from_path(leaf, siblings, index);
        return same_digest(&root, expected_root);
    }
    if path.layer_digests.len() != depth || path.compress_starks.len() != depth {
        return false;
    }
    if !same_digest(&leaf, &path.leaf_digest) || !same_digest(&leaf, &path.leaf_keccak.digest) {
        return false;
    }
    let layers = path_layers(leaf, siblings, index);
    let mut i: usize = 0;
    while i < depth
        invariant
            i <= depth,
            depth == siblings@.len(),
            depth == path.layer_digests@.len(),
            !path_digestless(*path),
            leaf@ == poseidon_leaf(vals(row@)),
            is_path_layers(layers@, poseidon_pair(), leaf@, siblings@, index as int),
            forall|k: int| 0 <= k < i ==> (#[trigger] path.layer_digests@[k])@ == layers@[k]@,
        decreases depth - i,
    {
        if !same_digest(&layers[i], &path.layer_digests[i]) {
            proof {
                assert(path.layer_digests@[i as int]@ != layers@[i as int]@);
            }
            return false;
        }
        i += 1;
    }
    same_digest(&layers[depth - 1], expected_root)
}

/// A full path record that holds also holds by its digests, with or without proof bytes.
pub proof fn lemma_valid_path_by_digests(
    row: Seq<int>,
    siblings: Seq<[u8; 32]>,
    index: int,
    root: Seq<u8>,
    p: FriMmcsPathProof,
    stripped: FriMmcsPathProof,
)
    requires
        crate::fri_mmcs_path::path_record_valid(row, siblings, index, root, p),
        path_stripped(p, stripped),
    ensures
        path_digests_valid(row, siblings, index, root, p),
        path_digests_valid(row, siblings, index, root, stripped),
        path_bare(stripped),
{
}

/// Stripping a batch path keeps it valid by its digests.
pub proof fn lemma_stripped_batch_valid(
    b: crate::batch_path::Batch,
    root: Seq<u8>,
    p: FriChalBatchPathProof,
    stripped: FriChalBatchPathProof,
)
    requires
        b.digests_valid(root, p),
        batch_stripped(p, stripped),
    ensures
        b.digests_valid(root, stripped),
        batch_bare(stripped),
{
    let carried = p.leaf_digests@.len() > 0;
    if carried {
        assert forall|i: int| 0 <= i < b.dims.len() implies #[trigger] b.leaf_ok(stripped, i) by {
            assert(b.leaf_ok(p, i));
            assert(record_stripped(p.leaf_keccs@[i], stripped.leaf_keccs@[i]));
        }
        if b.leaf_group().len() != 1 {
            let i = choose|i: int|
                b.dims.len() <= i < p.leaf_rows@.len() && i < p.leaf_digests@.len() && i
                    < p.leaf_keccs@.len() && #[trigger] b.joint_leaf(p, i);
            assert(record_stripped(p.leaf_keccs@[i], stripped.leaf_keccs@[i]));
            assert(b.joint_leaf(stripped, i));
        }
    }
    assert forall|k: nat| 1 <= k <= b.steps() implies #[trigger] b.digest_level_ok(stripped, k) by {
        assert(b.digest_level_ok(p, k));
    }
}

} // verus!
