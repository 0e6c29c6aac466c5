//! Group proofs over either tree hash.
use vstd::prelude::*;

use crate::fri_mmcs_group_m4b::KeccakGroupFoldProof;
use crate::merkle_poseidon2::{group_width_ok, poseidon_m4b_width_eligible};

verus! {

/// Wire tag of a Keccak group.
pub const MMCS_GROUP_HASH_KECCAK: u8 = 0;

/// Wire tag of a Poseidon2 group.
pub const MMCS_GROUP_HASH_POSEIDON: u8 = 1;

/// Name of the setting that forces Keccak groups.
pub const PCS_MMCS_HASH_ENV: &'static str = "WQC_PCS_MMCS_HASH";

/// Which hash a group proves.
#[derive(Debug, Clone, Copy, PartialEq, Eq, Structural)]
pub enum MmcsGroupHashKind {
    Keccak,
    Poseidon,
}

impl MmcsGroupHashKind {
    /// The wire tag of a kind.
    pub open spec fn tag(self) -> u8 {
        match self {
            MmcsGroupHashKind::Keccak => MMCS_GROUP_HASH_KECCAK,
            MmcsGroupHashKind::Poseidon => MMCS_GROUP_HASH_POSEIDON,
        }
    }

    /// The kind a wire tag names.
    pub fn from_u8(v: u8) -> (r: Option<Self>)
        ensures
            r matches Some(k) ==> k.tag() == v,
            r is None ==> v != MMCS_GROUP_HASH_KECCAK && v != MMCS_GROUP_HASH_POSEIDON,
    {
        if v == MMCS_GROUP_HASH_KECCAK {
            Some(MmcsGroupHashKind::Keccak)
        } else if v == MMCS_GROUP_HASH_POSEIDON {
            Some(MmcsGroupHashKind::Poseidon)
        } else {
            None
        }
    }

    /// The wire tag of this kind.
    pub fn to_u8(&self) -> (r: u8)
        ensures
            r == self.tag(),
    {
        match self {
            MmcsGroupHashKind::Keccak => MMCS_GROUP_HASH_KECCAK,
            MmcsGroupHashKind::Poseidon => MMCS_GROUP_HASH_POSEIDON,
        }
    }
}

impl Default for MmcsGroupHashKind {
    /// The production tree's hash.
    fn default() -> (r: Self)
        ensures
            r == MmcsGroupHashKind::Poseidon,
    {
        MmcsGroupHashKind::Poseidon
    }
}

/// Two kinds with one tag are the same kind.
pub proof fn lemma_tag_injective(a: MmcsGroupHashKind, b: MmcsGroupHashKind)
    requires
        a.tag() == b.tag(),
    ensures
        a == b,
{
}

/// A Poseidon2 group as one proof.
#[derive(Debug, Clone, PartialEq, Eq)]
pub struct PoseidonGroupFoldProof {
    pub path_count: u32,
    pub depth: u32,
    pub leaf_width: u32,
    pub group_stark: Vec<u8>,
}

/// A group proof over either hash.
#[derive(Debug, Clone, PartialEq, Eq)]
pub enum MmcsGroupFoldProof {
    Keccak(KeccakGroupFoldProof),
    Poseidon(PoseidonGroupFoldProof),
}

impl MmcsGroupFoldProof {
    pub open spec fn hash_kind_spec(self) -> MmcsGroupHashKind {
        match self {
            MmcsGroupFoldProof::Keccak(_) => MmcsGroupHashKind::Keccak,
            MmcsGroupFoldProof::Poseidon(_) => MmcsGroupHashKind::Poseidon,
        }
    }

    pub open spec fn path_count_spec(self) -> u32 {
        match self {
            MmcsGroupFoldProof::Keccak(g) => g.path_count,
            MmcsGroupFoldProof::Poseidon(g) => g.path_count,
        }
    }

    pub open spec fn depth_spec(self) -> u32 {
        match self {
            MmcsGroupFoldProof::Keccak(g) => g.depth,
            MmcsGroupFoldProof::Poseidon(g) => g.depth,
        }
    }

    pub open spec fn leaf_width_spec(self) -> u32 {
        match self {
            MmcsGroupFoldProof::Keccak(g) => g.leaf_width,
            MmcsGroupFoldProof::Poseidon(g) => g.leaf_width,
        }
    }

    pub open spec fn stark(self) -> Seq<u8> {
        match self {
            MmcsGroupFoldProof::Keccak(g) => g.group_stark@,
            MmcsGroupFoldProof::Poseidon(g) => g.group_stark@,
        }
    }

    pub fn hash_kind(&self) -> (r: MmcsGroupHashKind)
        ensures
            r == self.hash_kind_spec(),
    {
        match self {
            MmcsGroupFoldProof::Keccak(_) => MmcsGroupHashKind::Keccak,
            MmcsGroupFoldProof::Poseidon(_) => MmcsGroupHashKind::Poseidon,
        }
    }

    pub fn path_count(&self) -> (r: u32)
        ensures
            r == self.path_count_spec(),
    {
        match self {
            MmcsGroupFoldProof::Keccak(g) => g.path_count,
            MmcsGroupFoldProof::Poseidon(g) => g.path_count,
        }
    }

    pub fn depth(&self) -> (r: u32)
        ensures
            r == self.depth_spec(),
    {
        match self {
            MmcsGroupFoldProof::Keccak(g) => g.depth,
            MmcsGroupFoldProof::Poseidon(g) => g.depth,
        }
    }

    pub fn leaf_width(&self) -> (r: u32)
        ensures
            r == self.leaf_width_spec(),
    {
        match self {
            MmcsGroupFoldProof::Keccak(g) => g.leaf_width,
            MmcsGroupFoldProof::Poseidon(g) => g.leaf_width,
        }
    }

    pub fn group_stark_len(&self) -> (r: usize)
        ensures
            r == self.stark().len(),
    {
        match self {
            MmcsGroupFoldProof::Keccak(g) => g.group_stark.len(),
            MmcsGroupFoldProof::Poseidon(g) => g.group_stark.len(),
        }
    }

    pub fn keccak(&self) -> (r: Option<&KeccakGroupFoldProof>)
        ensures
            r == (match *self {
                MmcsGroupFoldProof::Keccak(g) => Some(&g),
                MmcsGroupFoldProof::Poseidon(_) => None,
            }),
    {
        match self {
            MmcsGroupFoldProof::Keccak(g) => Some(g),
            MmcsGroupFoldProof::Poseidon(_) => None,
        }
    }

    pub fn poseidon(&self) -> (r: Option<&PoseidonGroupFoldProof>)
        ensures
            r == (match *self {
                MmcsGroupFoldProof::Keccak(_) => None,
                MmcsGroupFoldProof::Poseidon(g) => Some(&g),
            }),
    {
        match self {
            MmcsGroupFoldProof::Poseidon(g) => Some(g),
            MmcsGroupFoldProof::Keccak(_) => None,
        }
    }
}

/// A letter without its ASCII case.
pub open spec fn ascii_lower(c: char) -> char {
    if 'A' <= c <= 'Z' {
        ((c as u32 + 32) as u32) as char
    } else {
        c
    }
}

/// Whether two texts are equal up to ASCII case.
pub open spec fn eq_ignore_case(a: Seq<char>, b: Seq<char>) -> bool {
    &&& a.len() == b.len()
    &&& forall|i: int| 0 <= i < a.len() ==> ascii_lower(#[trigger] a[i]) == ascii_lower(b[i])
}

/// `str::eq_ignore_ascii_case`: whether two texts are equal up to ASCII case.
#[verifier::external_body]
pub(crate) fn text_eq_ignore_case(a: &str, b: &str) -> (r: bool)
    ensures
        r == eq_ignore_case(a@, b@),
{
    a.eq_ignore_ascii_case(b)
}

/// The hash of new groups, by the text of the setting [`PCS_MMCS_HASH_ENV`]: Poseidon2 unless it
/// is `keccak`.
pub fn mmcs_group_hash_kind(text: Option<&str>) -> (r: MmcsGroupHashKind)
    ensures
        r == (match text {
            Some(s) if eq_ignore_case(s@, "keccak"@) => MmcsGroupHashKind::Keccak,
            _ => MmcsGroupHashKind::Poseidon,
        }),
{
    if let Some(v) = text {
        if text_eq_ignore_case(v, "keccak") {
            return MmcsGroupHashKind::Keccak;
        }
    }
    MmcsGroupHashKind::Poseidon
}

/// Whether a Poseidon2 group can prove this leaf width.
pub fn poseidon_group_width_supported(leaf_width: usize) -> (r: bool)
    ensures
        r == group_width_ok(leaf_width as int),
{
    poseidon_m4b_width_eligible(leaf_width)
}

} // verus!
