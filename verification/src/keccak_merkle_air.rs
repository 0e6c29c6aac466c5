//! Merkle path proofs of fixed depth: an index-bit system and one sponge proof per hash.
use vstd::prelude::*;

use crate::agg_constraints::AGG_WIDTH;
use crate::bits::nat_bit;
use crate::constraint::{fbit, ConstraintSink, Expr, Window, WindowVals};
use crate::field::{fbool, fmul, fsub, vals, Val, P};
use crate::keccak256_air::{
    prove_compress, prove_lde_leaf, same_digest, sponge_prove_outcome, sponge_prover_ready,
    sponge_verifier_ready, sponge_verify_outcome, verify_compress_digest, verify_lde_leaf_digest,
    Keccak256Error, Keccak256SpongeAir, Keccak256StarkProof,
};
use crate::keccak_f_native::row_bytes;
use crate::matrix::{byte_vals, push_bools, push_bytes, push_val, RowMajorMatrix};
use crate::merkle::{is_path_layers, path_digest, path_root};
use crate::merkle_keccak::{keccak_leaf, keccak_pair};
use crate::sponge_gadgets::{bits_value, bits_value_expr};

verus! {

/// Depth of the paths this system covers.
pub const MERKLE_FOLD_DEPTH: usize = 3;

/// Publics: leaf, root, index, depth, layer digests, siblings.
pub const MERKLE_FOLD_NUM_PUBLIC: usize = 258;

/// One column per index bit.
pub const MERKLE_FOLD_WIDTH: usize = 3;

/// The index-bit system.
#[derive(Copy, Clone, Debug)]
pub struct MerkleFoldAir;

impl MerkleFoldAir {
    pub fn width(&self) -> (r: usize)
        ensures
            r == MERKLE_FOLD_WIDTH,
    {
        MERKLE_FOLD_WIDTH
    }

    pub fn max_constraint_degree(&self) -> (r: Option<usize>)
        ensures
            r == Some(2usize),
    {
        Some(2)
    }

    pub fn num_public_values(&self) -> (r: usize)
        ensures
            r == MERKLE_FOLD_NUM_PUBLIC,
    {
        MERKLE_FOLD_NUM_PUBLIC
    }

    /// The values the system emits on a window.
    pub open spec fn constraints(self, w: WindowVals) -> Seq<int> {
        Seq::new(
            6,
            |j: int|
                if j % 2 == 0 {
                    fbit(w.curr[j / 2])
                } else {
                    fmul(w.trans, fsub(w.next[j / 2], w.curr[j / 2]))
                },
        ) + seq![fsub(w.pv[65], 3), fsub(bits_value(w.curr.take(3)), w.pv[64])]
    }

    /// Emits the system's constraints: the cells are bits that never change, the public depth
    /// is three, and the bits spell the public index.
    pub fn eval<S: ConstraintSink>(&self, sink: &mut S, w: &Window<S::E>)
        requires
            w.curr@.len() == MERKLE_FOLD_WIDTH,
            w.next@.len() == MERKLE_FOLD_WIDTH,
            w.pv@.len() == MERKLE_FOLD_NUM_PUBLIC,
        ensures
            final(sink).emitted() == old(sink).emitted() + self.constraints(w@),
    {
        let ghost e0 = sink.emitted();
        let ghost want = self.constraints(w@);
        let one = <S::E as Expr>::lit(1);
        let mut i: usize = 0;
        while i < MERKLE_FOLD_WIDTH
            invariant
                i <= 3,
                w.curr@.len() == 3,
                w.next@.len() == 3,
                one.val() == 1,
                want == self.constraints(w@),
                sink.emitted() == e0 + want.take(2 * i),
            decreases 3 - i,
        {
            let b = w.curr[i].dup();
            sink.assert_zero(b.times(&b.minus(&one)));
            sink.assert_zero(w.trans.times(&w.next[i].minus(&w.curr[i])));
            proof {
                assert(sink.emitted() =~= e0 + want.take(2 * (i + 1)));
            }
            i += 1;
        }
        let three = <S::E as Expr>::lit(3);
        sink.assert_zero(w.pv[65].minus(&three));
        let acc = bits_value_expr(w.curr.as_slice());
        sink.assert_zero(acc.minus(&w.pv[64]));
        proof {
            assert(w@.curr.take(3) =~= w@.curr);
            assert(sink.emitted() =~= e0 + want);
        }
    }
}

/// The bytes of a list of digests, one after the other, as residues.
pub open spec fn digest_list_vals(ds: Seq<[u8; 32]>) -> Seq<int> {
    Seq::new(32 * ds.len(), |i: int| ds[i / 32]@[i % 32] as int)
}

/// Appends the bytes of a list of digests.
pub fn push_digests(values: &mut Vec<Val>, ds: &[[u8; 32]])
    ensures
        vals(final(values)@) == vals(old(values)@) + digest_list_vals(ds@),
{
    let ghost base = vals(values@);
    let mut i: usize = 0;
    while i < ds.len()
        invariant
            i <= ds.len(),
            vals(values@) == base + digest_list_vals(ds@.take(i as int)),
        decreases ds.len() - i,
    {
        push_bytes(values, vstd::array::array_as_slice(&ds[i]));
        proof {
            let a = digest_list_vals(ds@.take(i as int));
            let b = digest_list_vals(ds@.take(i + 1));
            assert forall|j: int| 0 <= j < b.len() implies #[trigger] b[j] == (a + byte_vals(
                ds@[i as int]@,
            ))[j] by {
                if j < 32 * i {
                    assert(j / 32 < i);
                } else {
                    assert(j / 32 == i);
                }
            }
            assert(b =~= a + byte_vals(ds@[i as int]@));
            assert(vals(values@) =~= base + b);
        }
        i += 1;
    }
    proof {
        assert(ds@.take(i as int) =~= ds@);
    }
}

/// The public values of a path.
pub open spec fn merkle_fold_publics(
    leaf: Seq<u8>,
    root: Seq<u8>,
    index: u32,
    layers: Seq<[u8; 32]>,
    siblings: Seq<[u8; 32]>,
) -> Seq<int> {
    byte_vals(leaf) + byte_vals(root) + seq![index as int % (P as int), 3int] + digest_list_vals(
        layers,
    ) + digest_list_vals(siblings)
}

/// Builds the public values; `None` unless both lists have the fixed depth.
pub fn build_public_values(
    leaf: &[u8; 32],
    root: &[u8; 32],
    index: u32,
    layer_digests: &[[u8; 32]],
    siblings: &[[u8; 32]],
) -> (r: Option<Vec<Val>>)
    ensures
        r is Some <==> layer_digests@.len() == 3 && siblings@.len() == 3,
        r matches Some(pv) ==> pv@.len() == MERKLE_FOLD_NUM_PUBLIC && vals(pv@)
            == merkle_fold_publics(leaf@, root@, index, layer_digests@, siblings@),
{
    if layer_digests.len() != MERKLE_FOLD_DEPTH || siblings.len() != MERKLE_FOLD_DEPTH {
        return None;
    }
    let mut pv: Vec<Val> = Vec::new();
    push_bytes(&mut pv, vstd::array::array_as_slice(leaf));
    push_bytes(&mut pv, vstd::array::array_as_slice(root));
    push_val(&mut pv, Val::from_u32(index));
    push_val(&mut pv, Val::from_u32(3));
    push_digests(&mut pv, layer_digests);
    push_digests(&mut pv, siblings);
    proof {
        let want = merkle_fold_publics(leaf@, root@, index, layer_digests@, siblings@);
        assert(vals(pv@) =~= want);
        assert(vals(pv@).len() == pv@.len());
    }
    Some(pv)
}

/// The two-row trace of an index: its low bits, twice.
pub open spec fn is_fold_trace(m: RowMajorMatrix, index: int) -> bool {
    &&& m.width == 3
    &&& vals(m.values@) == Seq::new(6, |i: int| fbool(nat_bit(index, (i % 3) as nat)))
}

fn build_fold_matrix(index: usize) -> (m: RowMajorMatrix)
    ensures
        is_fold_trace(m, index as int),
{
    let i1: usize = index / 2;
    let i2: usize = i1 / 2;
    let b0: bool = index % 2 == 1;
    let b1: bool = i1 % 2 == 1;
    let b2: bool = i2 % 2 == 1;
    let bits = [b0, b1, b2, b0, b1, b2];
    let mut values: Vec<Val> = Vec::new();
    push_bools(&mut values, vstd::array::array_as_slice(&bits));
    proof {
        reveal_with_fuel(nat_bit, 4);
        assert(vals(values@) =~= Seq::new(6, |i: int| fbool(nat_bit(index as int, (i % 3) as nat))));
    }
    RowMajorMatrix { values, width: MERKLE_FOLD_WIDTH }
}

/// A path of an aggregation-width row, every hash proved.
#[derive(Debug, Clone, PartialEq, Eq)]
pub struct KeccakMerklePathProof {
    pub leaf_digest: [u8; 32],
    pub layer_digests: Vec<[u8; 32]>,
    pub fold_stark: Vec<u8>,
    pub leaf_keccak: Keccak256StarkProof,
    pub compress_starks: Vec<Keccak256StarkProof>,
}

/// Why no path proof was made.
#[derive(Debug, Clone, PartialEq, Eq)]
pub enum MerkleFoldError {
    /// The row does not have the aggregation width.
    RowWidth,
    /// The number of siblings is not the fixed depth.
    SiblingCount,
    /// A sponge proof failed.
    Sponge(Keccak256Error),
    /// The path does not lead to the expected root.
    RootMismatch,
    /// The index-bit proof failed.
    Fold(String),
}

/// The message hashed at level `i` of a Keccak path.
pub open spec fn layer_msg(leaf: Seq<u8>, siblings: Seq<[u8; 32]>, index: int, i: int) -> Seq<u8> {
    let d = path_digest(keccak_pair(), leaf, siblings, index, i as nat);
    if nat_bit(index, i as nat) {
        siblings[i]@ + d
    } else {
        d + siblings[i]@
    }
}

/// `reply` is what the index-bit prover answered for this path.
pub open spec fn fold_prover_reply<
    G: Fn(&MerkleFoldAir, &RowMajorMatrix, &[Val]) -> Result<Vec<u8>, String>,
>(
    prover: G,
    leaf: Seq<u8>,
    root: Seq<u8>,
    index: usize,
    siblings: Seq<[u8; 32]>,
    reply: Result<Vec<u8>, String>,
) -> bool {
    exists|a: &MerkleFoldAir, m: &RowMajorMatrix, p: &[Val], layers: Seq<[u8; 32]>|
        {
            &&& #[trigger] call_ensures(prover, (a, m, p), reply)
            &&& is_fold_trace(*m, index as int)
            &&& #[trigger] is_path_layers(layers, keccak_pair(), leaf, siblings, index as int)
            &&& vals(p@) == merkle_fold_publics(leaf, root, index as u32, layers, siblings)
        }
}

/// What proving the path of a row may return.
pub open spec fn merkle_prove_outcome<
    F: Fn(&Keccak256SpongeAir, &RowMajorMatrix, &[Val]) -> Result<Vec<u8>, String>,
    G: Fn(&MerkleFoldAir, &RowMajorMatrix, &[Val]) -> Result<Vec<u8>, String>,
>(
    sponge_prover: F,
    fold_prover: G,
    row: Seq<Val>,
    siblings: Seq<[u8; 32]>,
    index: usize,
    root: Seq<u8>,
    r: Result<KeccakMerklePathProof, MerkleFoldError>,
) -> bool {
    &&& row.len() != AGG_WIDTH <==> r == Err::<KeccakMerklePathProof, MerkleFoldError>(
        MerkleFoldError::RowWidth,
    )
    &&& row.len() == AGG_WIDTH && siblings.len() != MERKLE_FOLD_DEPTH <==> r == Err::<
        KeccakMerklePathProof,
        MerkleFoldError,
    >(MerkleFoldError::SiblingCount)
    &&& r matches Err(MerkleFoldError::Sponge(e)) ==> {
        ||| sponge_prove_outcome(sponge_prover, row_bytes(vals(row)), Err(e))
        ||| exists|i: int|
            0 <= i < 3 && #[trigger] sponge_prove_outcome(
                sponge_prover,
                layer_msg(keccak_leaf(vals(row)), siblings, index as int, i),
                Err(e),
            )
    }
    &&& r matches Err(MerkleFoldError::RootMismatch) ==> path_root(
        keccak_pair(),
        keccak_leaf(vals(row)),
        siblings,
        index as int,
    ) != root
    &&& r matches Err(MerkleFoldError::Fold(e)) ==> fold_prover_reply(
        fold_prover,
        keccak_leaf(vals(row)),
        root,
        index,
        siblings,
        Err(e),
    )
    &&& r matches Ok(p) ==> {
        let leaf = keccak_leaf(vals(row));
        &&& p.leaf_digest@ == leaf
        &&& sponge_prove_outcome(
            sponge_prover,
            row_bytes(vals(row)),
            Ok(p.leaf_keccak),
        )
        &&& is_path_layers(p.layer_digests@, keccak_pair(), leaf, siblings, index as int)
        &&& p.compress_starks@.len() == 3
        &&& forall|i: int|
            0 <= i < 3 ==> sponge_prove_outcome(
                sponge_prover,
                layer_msg(leaf, siblings, index as int, i),
                Ok(#[trigger] p.compress_starks@[i]),
            )
        &&& path_root(keccak_pair(), leaf, siblings, index as int) == root
        &&& fold_prover_reply(
            fold_prover,
            leaf,
            root,
            index,
            siblings,
            Ok(p.fold_stark),
        )
    }
}

/// Proves the path of an aggregation-width row: one sponge proof for the leaf, one per
/// level, and one for the index bits.
pub fn generate_keccak_merkle_path_proof<
    F: Fn(&Keccak256SpongeAir, &RowMajorMatrix, &[Val]) -> Result<Vec<u8>, String>,
    G: Fn(&MerkleFoldAir, &RowMajorMatrix, &[Val]) -> Result<Vec<u8>, String>,
>(
    lde_row: &[Val],
    siblings: &[[u8; 32]],
    index: usize,
    expected_root: &[u8; 32],
    sponge_prover: &F,
    fold_prover: &G,
) -> (r: Result<KeccakMerklePathProof, MerkleFoldError>)
    requires
        sponge_prover_ready(*sponge_prover),
        forall|a: &MerkleFoldAir, m: &RowMajorMatrix, p: &[Val]|
            call_requires(*fold_prover, (a, m, p)),
    ensures
        merkle_prove_outcome(
            *sponge_prover,
            *fold_prover,
            lde_row@,
            siblings@,
            index,
            expected_root@,
            r,
        ),
{
    if lde_row.len() != AGG_WIDTH {
        return Err(MerkleFoldError::RowWidth);
    }
    if siblings.len() != MERKLE_FOLD_DEPTH {
        return Err(MerkleFoldError::SiblingCount);
    }
    let ghost leaf = keccak_leaf(vals(lde_row@));
    let leaf_keccak = match prove_lde_leaf(lde_row, sponge_prover) {
        Ok(p) => p,
        Err(e) => {
            return Err(MerkleFoldError::Sponge(e));
        },
    };
    let leaf_digest: [u8; 32] = leaf_keccak.digest;
    let mut digest: [u8; 32] = leaf_digest;
    let mut idx: usize = index;
    let mut layer_digests: Vec<[u8; 32]> = Vec::new();
    let mut compress_starks: Vec<Keccak256StarkProof> = Vec::new();
    let mut i: usize = 0;
    while i < MERKLE_FOLD_DEPTH
        invariant
            i <= 3,
            lde_row@.len() == AGG_WIDTH,
            siblings@.len() == 3,
            leaf == keccak_leaf(vals(lde_row@)),
            sponge_prover_ready(*sponge_prover),
            digest@ == path_digest(keccak_pair(), leaf, siblings@, index as int, i as nat),
            layer_digests@.len() == i,
            forall|k: int|
                0 <= k < i ==> (#[trigger] layer_digests@[k])@ == path_digest(
                    keccak_pair(),
                    leaf,
                    siblings@,
                    index as int,
                    (k + 1) as nat,
                ),
            compress_starks@.len() == i,
            forall|k: int|
                0 <= k < i ==> sponge_prove_outcome(
                    *sponge_prover,
                    layer_msg(leaf, siblings@, index as int, k),
                    Ok(#[trigger] compress_starks@[k]),
                ),
            forall|j: nat| #[trigger] nat_bit(idx as int, j) == nat_bit(index as int, i as nat + j),
        decreases 3 - i,
    {
        proof {
            assert(nat_bit(idx as int, 0) == nat_bit(index as int, i as nat + 0));
        }
        let sib: [u8; 32] = siblings[i];
        let even: bool = idx % 2 == 0;
        let left: [u8; 32] = if even {
            digest
        } else {
            sib
        };
        let right: [u8; 32] = if even {
            sib
        } else {
            digest
        };
        proof {
            assert(left@ + right@ == layer_msg(leaf, siblings@, index as int, i as int));
        }
        let cproof = match prove_compress(left, right, sponge_prover) {
            Ok(p) => p,
            Err(e) => {
                proof {
                    assert(sponge_prove_outcome(
                        *sponge_prover,
                        layer_msg(leaf, siblings@, index as int, i as int),
                        Err(e),
                    ));
                }
                return Err(MerkleFoldError::Sponge(e));
            },
        };
        digest = cproof.digest;
        layer_digests.push(digest);
        compress_starks.push(cproof);
        let ghost idx0: usize = idx;
        idx = idx / 2;
        proof {
            assert forall|j: nat| #[trigger]
                nat_bit(idx as int, j) == nat_bit(index as int, (i + 1) as nat + j) by {
                assert(nat_bit(idx0 as int, j + 1) == nat_bit(index as int, i as nat + (j + 1)));
            }
        }
        i += 1;
    }
    if !same_digest(&digest, expected_root) {
        return Err(MerkleFoldError::RootMismatch);
    }
    let pv = match build_public_values(
        &leaf_digest,
        expected_root,
        index as u32,
        layer_digests.as_slice(),
        siblings,
    ) {
        Some(pv) => pv,
        None => {
            return Err(MerkleFoldError::SiblingCount);
        },
    };
    let matrix = build_fold_matrix(index);
    let publics: &[Val] = pv.as_slice();
    let air = MerkleFoldAir;
    let reply = fold_prover(&air, &matrix, publics);
    proof {
        assert(call_ensures(*fold_prover, (&air, &matrix, publics), reply));
        assert(is_path_layers(layer_digests@, keccak_pair(), leaf, siblings@, index as int));
        assert(fold_prover_reply(
            *fold_prover,
            leaf,
            expected_root@,
            index,
            siblings@,
            reply,
        ));
    }
    match reply {
        Ok(fold_stark) => Ok(
            KeccakMerklePathProof {
                leaf_digest,
                layer_digests,
                fold_stark,
                leaf_keccak,
                compress_starks,
            },
        ),
        Err(e) => Err(MerkleFoldError::Fold(e)),
    }
}

/// The two digests paired at level `i` of a claimed path.
pub open spec fn claimed_msg(p: KeccakMerklePathProof, siblings: Seq<[u8; 32]>, index: int, i: int) -> Seq<
    u8,
> {
    let d = if i == 0 {
        p.leaf_digest@
    } else {
        p.layer_digests@[i - 1]@
    };
    if nat_bit(index, i as nat) {
        siblings[i]@ + d
    } else {
        d + siblings[i]@
    }
}

/// The parts of a path proof fit together: counts, leaf digest, level digests and root.
pub open spec fn merkle_proof_shape(
    row: Seq<Val>,
    siblings: Seq<[u8; 32]>,
    root: Seq<u8>,
    p: KeccakMerklePathProof,
) -> bool {
    &&& row.len() == AGG_WIDTH
    &&& siblings.len() == 3
    &&& p.layer_digests@.len() == 3
    &&& p.compress_starks@.len() == 3
    &&& p.leaf_digest@ == p.leaf_keccak.digest@
    &&& forall|i: int|
        0 <= i < 3 ==> (#[trigger] p.compress_starks@[i]).digest@ == p.layer_digests@[i]@
    &&& p.layer_digests@[2]@ == root
}

/// The verdict of the index-bit verifier on a path proof.
pub open spec fn fold_verdict<W: Fn(&MerkleFoldAir, &[Val], &[u8]) -> bool>(
    verifier: W,
    siblings: Seq<[u8; 32]>,
    index: usize,
    root: Seq<u8>,
    p: KeccakMerklePathProof,
    r: bool,
) -> bool {
    exists|a: &MerkleFoldAir, v: &[Val], b: &[u8]|
        {
            &&& #[trigger] call_ensures(verifier, (a, v, b), r)
            &&& b@ == p.fold_stark@
            &&& vals(v@) == merkle_fold_publics(
                p.leaf_digest@,
                root,
                index as u32,
                p.layer_digests@,
                siblings,
            )
        }
}

/// What checking a path proof may return: true where its shape is right and every verifier says
/// so, false where its shape is wrong or one of them says so.
pub open spec fn merkle_verify_outcome<
    V: Fn(&Keccak256SpongeAir, &[Val], &[u8]) -> bool,
    W: Fn(&MerkleFoldAir, &[Val], &[u8]) -> bool,
>(
    sponge_verifier: V,
    fold_verifier: W,
    row: Seq<Val>,
    siblings: Seq<[u8; 32]>,
    index: usize,
    root: Seq<u8>,
    proof: KeccakMerklePathProof,
    r: bool,
) -> bool {
    if r {
        &&& merkle_proof_shape(row, siblings, root, proof)
        &&& sponge_verify_outcome(sponge_verifier, row_bytes(vals(row)), proof.leaf_keccak, true)
        &&& forall|i: int|
            0 <= i < 3 ==> sponge_verify_outcome(
                sponge_verifier,
                claimed_msg(proof, siblings, index as int, i),
                #[trigger] proof.compress_starks@[i],
                true,
            )
        &&& fold_verdict(fold_verifier, siblings, index, root, proof, true)
    } else {
        ||| !merkle_proof_shape(row, siblings, root, proof)
        ||| sponge_verify_outcome(sponge_verifier, row_bytes(vals(row)), proof.leaf_keccak, false)
        ||| exists|i: int|
            0 <= i < 3 && sponge_verify_outcome(
                sponge_verifier,
                claimed_msg(proof, siblings, index as int, i),
                #[trigger] proof.compress_starks@[i],
                false,
            )
        ||| fold_verdict(fold_verifier, siblings, index, root, proof, false)
    }
}

/// Checks a path proof: shape, every sponge proof, and the index-bit proof.
pub fn verify_keccak_merkle_path_proof<
    V: Fn(&Keccak256SpongeAir, &[Val], &[u8]) -> bool,
    W: Fn(&MerkleFoldAir, &[Val], &[u8]) -> bool,
>(
    lde_row: &[Val],
    siblings: &[[u8; 32]],
    index: usize,
    expected_root: &[u8; 32],
    proof: &KeccakMerklePathProof,
    sponge_verifier: &V,
    fold_verifier: &W,
) -> (r: bool)
    requires
        sponge_verifier_ready(*sponge_verifier),
        forall|a: &MerkleFoldAir, p: &[Val], b: &[u8]| call_requires(*fold_verifier, (a, p, b)),
    ensures
        merkle_verify_outcome(
            *sponge_verifier,
            *fold_verifier,
            lde_row@,
            siblings@,
            index,
            expected_root@,
            *proof,
            r,
        ),
{
    if siblings.len() != MERKLE_FOLD_DEPTH {
        return false;
    }
    if proof.layer_digests.len() != MERKLE_FOLD_DEPTH || proof.compress_starks.len()
        != MERKLE_FOLD_DEPTH {
        return false;
    }
    if !same_digest(&proof.leaf_digest, &proof.leaf_keccak.digest) {
        return false;
    }
    if !verify_lde_leaf_digest(lde_row, &proof.leaf_digest, &proof.leaf_keccak, sponge_verifier) {
        return false;
    }
    let mut digest: [u8; 32] = proof.leaf_digest;
    let mut idx: usize = index;
    let mut i: usize = 0;
    proof {
        assert(lde_row@.len() == AGG_WIDTH);
    }
    while i < MERKLE_FOLD_DEPTH
        invariant
            i <= 3,
            siblings@.len() == 3,
            proof.layer_digests@.len() == 3,
            proof.compress_starks@.len() == 3,
            sponge_verifier_ready(*sponge_verifier),
            digest@ == (if i == 0 {
                proof.leaf_digest@
            } else {
                proof.layer_digests@[i - 1]@
            }),
            forall|k: int|
                0 <= k < i ==> (#[trigger] proof.compress_starks@[k]).digest@
                    == proof.layer_digests@[k]@ && sponge_verify_outcome(
                    *sponge_verifier,
                    claimed_msg(*proof, siblings@, index as int, k),
                    proof.compress_starks@[k],
                    true,
                ),
            forall|j: nat| #[trigger] nat_bit(idx as int, j) == nat_bit(index as int, i as nat + j),
        decreases 3 - i,
    {
        proof {
            assert(nat_bit(idx as int, 0) == nat_bit(index as int, i as nat + 0));
        }
        let sib: [u8; 32] = siblings[i];
        let even: bool = idx % 2 == 0;
        let left: [u8; 32] = if even {
            digest
        } else {
            sib
        };
        let right: [u8; 32] = if even {
            sib
        } else {
            digest
        };
        proof {
            assert(left@ + right@ == claimed_msg(*proof, siblings@, index as int, i as int));
        }
        let expected: [u8; 32] = proof.layer_digests[i];
        if !verify_compress_digest(
            left,
            right,
            &expected,
            &proof.compress_starks[i],
            sponge_verifier,
        ) {
            proof {
                assert(proof.compress_starks@[i as int] == proof.compress_starks@[i as int]);
            }
            return false;
        }
        digest = expected;
        let ghost idx0: usize = idx;
        idx = idx / 2;
        proof {
            assert forall|j: nat| #[trigger]
                nat_bit(idx as int, j) == nat_bit(index as int, (i + 1) as nat + j) by {
                assert(nat_bit(idx0 as int, j + 1) == nat_bit(index as int, i as nat + (j + 1)));
            }
        }
        i += 1;
    }
    if !same_digest(&digest, expected_root) {
        return false;
    }
    let pv = match build_public_values(
        &proof.leaf_digest,
        expected_root,
        index as u32,
        proof.layer_digests.as_slice(),
        siblings,
    ) {
        Some(pv) => pv,
        None => {
            return false;
        },
    };
    let air = MerkleFoldAir;
    fold_verifier(&air, pv.as_slice(), proof.fold_stark.as_slice())
}

} // verus!
