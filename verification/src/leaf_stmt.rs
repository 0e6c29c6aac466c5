//! What a leaf certificate states, and the shape its openings must have.
use vstd::prelude::*;

use crate::chal_mmcs::FriChalMmcsQueryProof;
use crate::child_binding::{append_bytes, sha3_256, sha3_32};
use crate::fri_mmcs_path::FriMmcsPathProof;
use crate::keccak256_air::{same_digest, Keccak256StarkProof};
use crate::merkle::{copy_digests, same_digests};
use crate::pcs_view::StarkProofView;
use crate::val_mmcs::FriValMmcsQueryProof;

verus! {

/// What a leaf proof is a proof of.
#[derive(Debug, Clone, Copy, PartialEq, Eq, Structural)]
pub enum LeafKind {
    Unitary,
    Born,
    TrajMarginal,
    ShotSampling,
}

/// The numbers the leaf certificates of a deployment agree on.
#[derive(Debug, Clone, Copy)]
pub struct LeafRules {
    pub unitary_tag: u8,
    pub born_tag: u8,
    pub traj_marginal_tag: u8,
    pub shot_sampling_tag: u8,
    /// Columns of a unitary trace.
    pub unitary_width: usize,
    /// Queries whose openings are certified.
    pub proven_queries: usize,
    /// The longest path of a certified opening.
    pub max_siblings: usize,
}

impl LeafRules {
    /// The byte that stands for a kind in a statement.
    pub open spec fn tag(self, kind: LeafKind) -> u8 {
        match kind {
            LeafKind::Unitary => self.unitary_tag,
            LeafKind::Born => self.born_tag,
            LeafKind::TrajMarginal => self.traj_marginal_tag,
            LeafKind::ShotSampling => self.shot_sampling_tag,
        }
    }
}

/// The bytes of a list of digests, one after the other.
pub open spec fn digest_bytes(s: Seq<[u8; 32]>) -> Seq<u8>
    decreases s.len(),
{
    if s.len() == 0 {
        Seq::empty()
    } else {
        digest_bytes(s.drop_last()) + s.last()@
    }
}

/// A number in groups of seven bits, least significant first; every byte but the last has its
/// top bit set.
pub open spec fn varint(n: nat) -> Seq<u8>
    decreases n,
{
    if n < 128 {
        seq![n as u8]
    } else {
        seq![(n % 128 + 128) as u8] + varint(n / 128)
    }
}

/// `postcard::to_allocvec` of a list of digests: the length as a variable-length number, then
/// the digests. Writing to a growing vector does not fail.
#[verifier::external_body]
fn encode_digests(s: &[[u8; 32]]) -> (r: Vec<u8>)
    ensures
        r@ == varint(s@.len()) + digest_bytes(s@),
{
    postcard::to_allocvec(s).unwrap()
}

/// The bytes whose hash is the statement of a leaf proof: the tag of its kind and the trace
/// commitment.
pub open spec fn leaf_stmt_bytes(rules: LeafRules, kind: LeafKind, proof: StarkProofView) -> Seq<
    u8,
> {
    seq![rules.tag(kind)] + (varint(proof.trace_commitment@.len()) + digest_bytes(
        proof.trace_commitment@,
    ))
}

/// The digest of what a leaf proof states.
pub fn leaf_stmt_digest(kind: LeafKind, proof: &StarkProofView, rules: &LeafRules) -> (r: [u8; 32])
    ensures
        r@ == sha3_256(leaf_stmt_bytes(*rules, kind, *proof)),
{
    let tag: u8 = match kind {
        LeafKind::Unitary => rules.unitary_tag,
        LeafKind::Born => rules.born_tag,
        LeafKind::TrajMarginal => rules.traj_marginal_tag,
        LeafKind::ShotSampling => rules.shot_sampling_tag,
    };
    let mut bytes: Vec<u8> = Vec::new();
    bytes.push(tag);
    let roots = encode_digests(proof.trace_commitment.as_slice());
    append_bytes(&mut bytes, &roots);
    proof {
        assert(bytes@ =~= leaf_stmt_bytes(*rules, kind, *proof));
    }
    sha3_32(bytes.as_slice())
}

/// The hash of a list of digests, one after the other.
pub(crate) fn hash_digests(s: &Vec<[u8; 32]>) -> (r: [u8; 32])
    ensures
        r@ == sha3_256(digest_bytes(s@)),
{
    let mut bytes: Vec<u8> = Vec::new();
    let mut i: usize = 0;
    while i < s.len()
        invariant
            i <= s.len(),
            bytes@ == digest_bytes(s@.take(i as int)),
        decreases s.len() - i,
    {
        let d: Vec<u8> = digest_vec(&s[i]);
        append_bytes(&mut bytes, &d);
        proof {
            assert(s@.take(i + 1).drop_last() =~= s@.take(i as int));
        }
        i += 1;
    }
    proof {
        assert(s@.take(i as int) =~= s@);
    }
    sha3_32(bytes.as_slice())
}

fn digest_vec(d: &[u8; 32]) -> (r: Vec<u8>)
    ensures
        r@ == d@,
{
    let mut r: Vec<u8> = Vec::new();
    let mut i: usize = 0;
    while i < 32
        invariant
            i <= 32,
            d@.len() == 32,
            r@ == d@.take(i as int),
        decreases 32 - i,
    {
        r.push(d[i]);
        i += 1;
        proof {
            assert(r@ =~= d@.take(i as int));
        }
    }
    proof {
        assert(d@.take(32) =~= d@);
    }
    r
}

/// A value opening has its siblings.
pub open spec fn val_shape_ok(q: FriValMmcsQueryProof) -> bool {
    &&& q.trace_path.depth == q.trace_siblings@.len()
    &&& q.trace_siblings@.len() > 0
    &&& q.quot_siblings@.len() > 0
    &&& q.quot_batch is Some || q.quot_path.depth == q.quot_siblings@.len()
}

/// Whether a value opening has its siblings.
pub fn path_self_check_val(q: &FriValMmcsQueryProof) -> (r: bool)
    ensures
        r == val_shape_ok(*q),
{
    q.trace_path.depth as usize == q.trace_siblings.len() && q.trace_siblings.len() > 0
        && q.quot_siblings.len() > 0 && (q.quot_batch.is_some() || q.quot_path.depth as usize
        == q.quot_siblings.len())
}

/// A folding opening has its siblings, one path a round.
pub open spec fn chal_shape_ok(q: FriChalMmcsQueryProof) -> bool {
    &&& q.first_layer.siblings@.len() > 0
    &&& q.commit_paths@.len() == q.commit_siblings@.len()
    &&& q.commit_paths@.len() == q.commit_indices@.len()
    &&& forall|i: int|
        0 <= i < q.commit_paths@.len() ==> (#[trigger] q.commit_paths@[i]).depth
            == q.commit_siblings@[i]@.len() && q.commit_siblings@[i]@.len() > 0
}

/// Whether a folding opening has its siblings, one path a round.
pub fn path_self_check_chal(q: &FriChalMmcsQueryProof) -> (r: bool)
    ensures
        r == chal_shape_ok(*q),
{
    if q.first_layer.siblings.len() == 0 || q.commit_paths.len() != q.commit_siblings.len()
        || q.commit_paths.len() != q.commit_indices.len() {
        return false;
    }
    let mut i: usize = 0;
    while i < q.commit_paths.len()
        invariant
            i <= q.commit_paths.len(),
            q.commit_paths@.len() == q.commit_siblings@.len(),
            forall|j: int|
                0 <= j < i ==> (#[trigger] q.commit_paths@[j]).depth
                    == q.commit_siblings@[j]@.len() && q.commit_siblings@[j]@.len() > 0,
        decreases q.commit_paths.len() - i,
    {
        if q.commit_paths[i].depth as usize != q.commit_siblings[i].len()
            || q.commit_siblings[i].len() == 0 {
            return false;
        }
        i += 1;
    }
    true
}

/// Two hash records say the same.
pub open spec fn same_record(a: Keccak256StarkProof, b: Keccak256StarkProof) -> bool {
    a.msg_len == b.msg_len && a.digest == b.digest && a.stark@ == b.stark@
}

/// Two paths say the same.
pub open spec fn same_path(a: FriMmcsPathProof, b: FriMmcsPathProof) -> bool {
    &&& a.depth == b.depth
    &&& a.leaf_width == b.leaf_width
    &&& a.leaf_digest == b.leaf_digest
    &&& a.layer_digests@ == b.layer_digests@
    &&& a.fold_stark@ == b.fold_stark@
    &&& same_record(a.leaf_keccak, b.leaf_keccak)
    &&& a.compress_starks@.len() == b.compress_starks@.len()
    &&& forall|i: int|
        0 <= i < a.compress_starks@.len() ==> same_record(
            #[trigger] a.compress_starks@[i],
            b.compress_starks@[i],
        )
}

fn bytes_equal(a: &Vec<u8>, b: &Vec<u8>) -> (r: bool)
    ensures
        r == (a@ == b@),
{
    if a.len() != b.len() {
        return false;
    }
    let mut i: usize = 0;
    while i < a.len()
        invariant
            i <= a.len(),
            a@.len() == b@.len(),
            forall|j: int| 0 <= j < i ==> a@[j] == b@[j],
        decreases a.len() - i,
    {
        if a[i] != b[i] {
            return false;
        }
        i += 1;
    }
    proof {
        assert(a@ =~= b@);
    }
    true
}

fn records_equal(a: &Keccak256StarkProof, b: &Keccak256StarkProof) -> (r: bool)
    ensures
        r == same_record(*a, *b),
{
    a.msg_len == b.msg_len && same_digest(&a.digest, &b.digest) && bytes_equal(&a.stark, &b.stark)
}

/// Whether two paths say the same.
pub fn paths_equal(a: &FriMmcsPathProof, b: &FriMmcsPathProof) -> (r: bool)
    ensures
        r == same_path(*a, *b),
{
    if a.depth != b.depth || a.leaf_width != b.leaf_width || !same_digest(
        &a.leaf_digest,
        &b.leaf_digest,
    ) || !same_digests(&a.layer_digests, &b.layer_digests) || !bytes_equal(
        &a.fold_stark,
        &b.fold_stark,
    ) || !records_equal(&a.leaf_keccak, &b.leaf_keccak) || a.compress_starks.len()
        != b.compress_starks.len() {
        return false;
    }
    let mut i: usize = 0;
    while i < a.compress_starks.len()
        invariant
            i <= a.compress_starks.len(),
            a.compress_starks@.len() == b.compress_starks@.len(),
            forall|j: int|
                0 <= j < i ==> same_record(
                    #[trigger] a.compress_starks@[j],
                    b.compress_starks@[j],
                ),
        decreases a.compress_starks.len() - i,
    {
        if !records_equal(&a.compress_starks[i], &b.compress_starks[i]) {
            return false;
        }
        i += 1;
    }
    true
}

pub(crate) fn copy_bytes(s: &Vec<u8>) -> (r: Vec<u8>)
    ensures
        r@ == s@,
{
    let mut r: Vec<u8> = Vec::new();
    append_bytes(&mut r, s);
    proof {
        assert(r@ =~= s@);
    }
    r
}

fn copy_record(c: &Keccak256StarkProof) -> (r: Keccak256StarkProof)
    ensures
        same_record(r, *c),
{
    Keccak256StarkProof { msg_len: c.msg_len, digest: c.digest, stark: copy_bytes(&c.stark) }
}

/// Copies a path.
pub fn copy_path(p: &FriMmcsPathProof) -> (r: FriMmcsPathProof)
    ensures
        same_path(r, *p),
{
    let mut compress_starks: Vec<Keccak256StarkProof> = Vec::new();
    let mut i: usize = 0;
    while i < p.compress_starks.len()
        invariant
            i <= p.compress_starks.len(),
            compress_starks@.len() == i,
            forall|j: int|
                0 <= j < i ==> same_record(
                    #[trigger] compress_starks@[j],
                    p.compress_starks@[j],
                ),
        decreases p.compress_starks.len() - i,
    {
        compress_starks.push(copy_record(&p.compress_starks[i]));
        i += 1;
    }
    FriMmcsPathProof {
        depth: p.depth,
        leaf_width: p.leaf_width,
        leaf_digest: p.leaf_digest,
        layer_digests: copy_digests(p.layer_digests.as_slice()),
        fold_stark: copy_bytes(&p.fold_stark),
        leaf_keccak: copy_record(&p.leaf_keccak),
        compress_starks,
    }
}

} // verus!
