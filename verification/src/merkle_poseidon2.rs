//! The Poseidon2 Merkle tree: width-16 permutation, rate-8 leaf sponge, truncated pairing,
//! digests of eight field elements packed into 32 bytes.
use p3_field::PrimeField32;
use p3_mersenne_31::{default_mersenne31_poseidon2_16, Mersenne31};
use p3_symmetric::{
    CryptographicHasher, PaddingFreeSponge, PseudoCompressionFunction, TruncatedPermutation,
};
use vstd::prelude::*;

use crate::bits::nat_bit;
use crate::field::{vals, Val, P};
use crate::keccak_f_native::{row_bytes, val_row_to_bytes, word_byte, KECCAK_RATE};
use crate::merkle::{path_digest, path_root};

verus! {

/// What the Poseidon2 leaf sponge returns on a row of canonical residues.
pub uninterp spec fn poseidon_sponge(row: Seq<int>) -> Seq<int>;

/// What the truncated Poseidon2 permutation returns on two digests of canonical residues.
pub uninterp spec fn poseidon_compress(left: Seq<int>, right: Seq<int>) -> Seq<int>;

/// The residues that a packed digest holds: eight little-endian words, reduced.
pub open spec fn digest_limbs(d: Seq<u8>) -> Seq<int> {
    Seq::new(8, |i: int| word_at(d, 4 * i) % (P as int))
}

/// The little-endian word at `d[o .. o + 4]`.
pub open spec fn word_at(d: Seq<u8>, o: int) -> int {
    d[o] as int + 256 * (d[o + 1] as int) + 65536 * (d[o + 2] as int) + 16777216 * (d[o + 3] as int)
}

/// The leaf digest of a row.
pub open spec fn poseidon_leaf(row: Seq<int>) -> Seq<u8> {
    row_bytes(poseidon_sponge(row))
}

/// The pairing of two packed digests.
pub open spec fn poseidon_pair() -> spec_fn(Seq<u8>, Seq<u8>) -> Seq<u8> {
    |l: Seq<u8>, r: Seq<u8>| row_bytes(poseidon_compress(digest_limbs(l), digest_limbs(r)))
}

/// `p3_symmetric::PaddingFreeSponge` (width 16, rate 8, output 8) over the default width-16
/// Poseidon2 of `p3_mersenne_31`: a function of the row alone, named `poseidon_sponge`; its
/// eight elements are canonical.
#[verifier::external_body]
fn poseidon_sponge_hash(row: &[Val]) -> (r: [Val; 8])
    ensures
        vals(r@) == poseidon_sponge(vals(row@)),
{
    let sponge = PaddingFreeSponge::<_, 16, 8, 8>::new(default_mersenne31_poseidon2_16());
    let out: [Mersenne31; 8] = sponge.hash_iter(
        row.iter().map(|v| Mersenne31::new(v.as_canonical_u32())),
    );
    out.map(|x| Val::from_u32(x.as_canonical_u32()))
}

/// `p3_symmetric::TruncatedPermutation` (two chunks of 8, width 16) over the default width-16
/// Poseidon2 of `p3_mersenne_31`: a function of the two digests alone, named
/// `poseidon_compress`.
#[verifier::external_body]
fn poseidon_truncated_compress(left: &[Val; 8], right: &[Val; 8]) -> (r: [Val; 8])
    ensures
        vals(r@) == poseidon_compress(vals(left@), vals(right@)),
{
    let c = TruncatedPermutation::<_, 2, 8, 16>::new(default_mersenne31_poseidon2_16());
    let l = left.map(|v| Mersenne31::new(v.as_canonical_u32()));
    let r = right.map(|v| Mersenne31::new(v.as_canonical_u32()));
    c.compress([l, r]).map(|x| Val::from_u32(x.as_canonical_u32()))
}

/// Packs eight field elements into 32 little-endian bytes.
pub fn pack_digest(limbs: &[Val; 8]) -> (d: [u8; 32])
    ensures
        d@ == row_bytes(vals(limbs@)),
{
    let bytes = val_row_to_bytes(vstd::array::array_as_slice(limbs));
    let mut d = [0u8; 32];
    let mut i: usize = 0;
    while i < 32
        invariant
            i <= 32,
            d@.len() == 32,
            bytes@.len() == 32,
            forall|j: int| 0 <= j < i ==> d@[j] == bytes@[j],
        decreases 32 - i,
    {
        d[i] = bytes[i];
        i += 1;
    }
    proof {
        assert(d@ =~= bytes@);
    }
    d
}

/// Reads a packed digest as eight field elements.
pub fn unpack_digest(d: &[u8; 32]) -> (limbs: [Val; 8])
    ensures
        vals(limbs@) == digest_limbs(d@),
{
    let mut limbs = [Val::zero(); 8];
    let mut i: usize = 0;
    while i < 8
        invariant
            i <= 8,
            limbs@.len() == 8,
            d@.len() == 32,
            forall|j: int| 0 <= j < i ==> (#[trigger] limbs@[j])@ == digest_limbs(d@)[j],
        decreases 8 - i,
    {
        let o: usize = 4 * i;
        let w: u32 = d[o] as u32 + 256 * (d[o + 1] as u32) + 65536 * (d[o + 2] as u32) + 16777216 * (
        d[o + 3] as u32);
        limbs[i] = Val::from_u32(w);
        i += 1;
    }
    proof {
        assert(vals(limbs@) =~= digest_limbs(d@));
    }
    limbs
}

/// Reading a packed digest gives back the packed elements.
pub proof fn lemma_unpack_pack(limbs: Seq<int>)
    requires
        limbs.len() == 8,
        forall|i: int| 0 <= i < 8 ==> 0 <= #[trigger] limbs[i] < P,
    ensures
        digest_limbs(row_bytes(limbs)) == limbs,
{
    let d = row_bytes(limbs);
    assert forall|i: int| 0 <= i < 8 implies #[trigger] digest_limbs(d)[i] == limbs[i] by {
        let x: int = limbs[i];
        let o: int = 4 * i;
        assert(d[o] == word_byte(x, 0));
        assert(d[o + 1] == word_byte(x, 1));
        assert(d[o + 2] == word_byte(x, 2));
        assert(d[o + 3] == word_byte(x, 3));
        assert(x / 65536 == (x / 256) / 256);
        assert(x / 16777216 == (x / 65536) / 256);
        assert(x / 16777216 < 256);
    }
    assert(digest_limbs(d) =~= limbs);
}

/// Leaf digest of a row.
pub fn hash_val_leaf_poseidon(row: &[Val]) -> (r: [u8; 32])
    ensures
        r@ == poseidon_leaf(vals(row@)),
{
    let limbs = poseidon_sponge_hash(row);
    pack_digest(&limbs)
}

/// Pairing of two digests.
pub fn compress_digests_poseidon(left: [u8; 32], right: [u8; 32]) -> (r: [u8; 32])
    ensures
        r@ == poseidon_pair()(left@, right@),
{
    let l = unpack_digest(&left);
    let r = unpack_digest(&right);
    let limbs = poseidon_truncated_compress(&l, &r);
    pack_digest(&limbs)
}

/// Leaf widths the group systems can prove: 12 to 272 message bytes.
pub open spec fn group_width_ok(leaf_width: int) -> bool {
    12 <= 4 * leaf_width <= 272
}

/// Whether a Poseidon2 group can prove this leaf width.
pub fn poseidon_m4b_width_eligible(leaf_width: usize) -> (r: bool)
    ensures
        r == group_width_ok(leaf_width as int),
{
    3 <= leaf_width && leaf_width <= 2 * KECCAK_RATE / 4
}

/// The root a path leads to.
pub fn merkle_root_from_path_poseidon(
    leaf_digest: [u8; 32],
    siblings: &[[u8; 32]],
    index: usize,
) -> (r: [u8; 32])
    ensures
        r@ == path_root(poseidon_pair(), leaf_digest@, siblings@, index as int),
{
    let mut digest: [u8; 32] = leaf_digest;
    let mut idx: usize = index;
    let mut i: usize = 0;
    while i < siblings.len()
        invariant
            i <= siblings.len(),
            digest@ == path_digest(
                poseidon_pair(),
                leaf_digest@,
                siblings@,
                index as int,
                i as nat,
            ),
            forall|j: nat| #[trigger] nat_bit(idx as int, j) == nat_bit(index as int, i as nat + j),
        decreases siblings.len() - i,
    {
        proof {
            assert(nat_bit(idx as int, 0) == nat_bit(index as int, i as nat + 0));
        }
        digest = if idx % 2 == 0 {
            compress_digests_poseidon(digest, siblings[i])
        } else {
            compress_digests_poseidon(siblings[i], digest)
        };
        let ghost idx0: usize = idx;
        idx = idx / 2;
        proof {
            assert forall|j: nat| #[trigger]
                nat_bit(idx as int, j) == nat_bit(index as int, (i + 1) as nat + j) by {
                assert(nat_bit(idx0 as int, j + 1) == nat_bit(index as int, i as nat + (j + 1)));
            }
        }
        i += 1;
    }
    digest
}

} // verus!
