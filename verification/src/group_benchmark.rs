//! Sizes of path groups over either hash.
//!
//! Statements that a Poseidon2 group can prove are proven again and measured; for the others the
//! size is extrapolated from the Keccak groups with the ratio of two small reference groups.
use vstd::prelude::*;
use vstd::slice::slice_subrange;

use crate::bits::nat_bit;
use crate::field::{vals, Val};
use crate::fri_mmcs_group_m4b::{
    generate_keccak_group_fold_proof, group_fold_outcome, GroupFoldError, KeccakGroupFoldProof,
    MmcsGroupPathAir, MmcsPathStatement,
};
use crate::keccak_f_native::{row_bytes, KECCAK_RATE};
use crate::matrix::RowMajorMatrix;
use crate::merkle::{path_digest, path_root};
use crate::merkle_keccak::{
    compress_digests, compress_digests_keccak, hash_val_leaf, hash_val_leaf_keccak, keccak_leaf,
    keccak_pair,
};
use crate::merkle_poseidon2::{group_width_ok, pack_digest, poseidon_leaf, poseidon_pair};
use crate::mmcs_group_fold::{
    poseidon_group_width_supported, MmcsGroupFoldProof, PoseidonGroupFoldProof,
};
use crate::mmcs_statements::LeafMmcsGroupStatements;
use crate::mmcs_strip::LeafMmcsFoldGroups;
use crate::path_strip::m4b_width_eligible;

verus! {

/// Bytes and counts of the groups of a leaf.
#[derive(Debug, Clone, Copy, PartialEq, Eq, Structural)]
pub struct PoseidonMmcsBenchmarkReport {
    pub keccak_total: u64,
    pub poseidon_measured: u64,
    pub poseidon_extrapolated: u64,
    pub poseidon_total_estimate: u64,
    pub keccak_groups: u32,
    pub poseidon_groups_measured: u32,
    pub poseidon_groups_skipped_wide: u32,
}

impl Default for PoseidonMmcsBenchmarkReport {
    fn default() -> (r: Self)
        ensures
            r == no_groups(),
    {
        PoseidonMmcsBenchmarkReport {
            keccak_total: 0,
            poseidon_measured: 0,
            poseidon_extrapolated: 0,
            poseidon_total_estimate: 0,
            keccak_groups: 0,
            poseidon_groups_measured: 0,
            poseidon_groups_skipped_wide: 0,
        }
    }
}

/// The report on no groups.
pub open spec fn no_groups() -> PoseidonMmcsBenchmarkReport {
    PoseidonMmcsBenchmarkReport {
        keccak_total: 0,
        poseidon_measured: 0,
        poseidon_extrapolated: 0,
        poseidon_total_estimate: 0,
        keccak_groups: 0,
        poseidon_groups_measured: 0,
        poseidon_groups_skipped_wide: 0,
    }
}

/// Why groups were not measured.
#[derive(Debug, Clone, PartialEq, Eq)]
pub enum BenchmarkError {
    /// A total does not fit its field.
    Overflow,
    /// The reference Keccak group has no bytes.
    EmptyReference,
    Keccak(GroupFoldError),
    Poseidon(String),
}

/// The bytes of the Keccak groups among a list.
pub open spec fn keccak_bytes(s: Seq<MmcsGroupFoldProof>) -> nat
    decreases s.len(),
{
    if s.len() == 0 {
        0
    } else {
        keccak_bytes(s.drop_last()) + match s.last() {
            MmcsGroupFoldProof::Keccak(g) => g.group_stark@.len(),
            MmcsGroupFoldProof::Poseidon(_) => 0,
        }
    }
}

/// The bytes of a list of groups.
pub open spec fn group_bytes(s: Seq<MmcsGroupFoldProof>) -> nat
    decreases s.len(),
{
    if s.len() == 0 {
        0
    } else {
        group_bytes(s.drop_last()) + s.last().stark().len()
    }
}

/// The size of a group in the other hash, with the product held at the field's maximum.
pub open spec fn extrapolated(size: int, ratio: (u64, u64)) -> int {
    let product = if size * ratio.0 > u64::MAX {
        u64::MAX as int
    } else {
        size * ratio.0
    };
    product / (if ratio.1 == 0 {
        1int
    } else {
        ratio.1 as int
    })
}

/// The extrapolated bytes of a list of groups.
pub open spec fn extrapolated_bytes(s: Seq<MmcsGroupFoldProof>, ratio: (u64, u64)) -> int
    decreases s.len(),
{
    if s.len() == 0 {
        0
    } else {
        extrapolated_bytes(s.drop_last(), ratio) + extrapolated(s.last().stark().len() as int, ratio)
    }
}

proof fn lemma_extrapolated_bounds(size: int, ratio: (u64, u64))
    requires
        size >= 0,
    ensures
        0 <= extrapolated(size, ratio) <= u64::MAX,
{
    let d: int = if ratio.1 == 0 {
        1
    } else {
        ratio.1 as int
    };
    let product = if size * ratio.0 > u64::MAX {
        u64::MAX as int
    } else {
        size * ratio.0
    };
    assert(size * ratio.0 >= 0) by (nonlinear_arith)
        requires
            size >= 0,
            ratio.0 >= 0,
    ;
    assert(0 <= product / d <= product) by (nonlinear_arith)
        requires
            product >= 0,
            d >= 1,
    ;
}

proof fn lemma_extrapolated_prefix(s: Seq<MmcsGroupFoldProof>, ratio: (u64, u64), n: int)
    requires
        0 <= n <= s.len(),
    ensures
        0 <= extrapolated_bytes(s.take(n), ratio) <= extrapolated_bytes(s, ratio),
    decreases s.len(),
{
    if s.len() > 0 {
        lemma_extrapolated_bounds(s.last().stark().len() as int, ratio);
        if n < s.len() {
            lemma_extrapolated_prefix(s.drop_last(), ratio, n);
            assert(s.drop_last().take(n) =~= s.take(n));
        } else {
            lemma_extrapolated_prefix(s.drop_last(), ratio, s.len() - 1);
            assert(s.take(n) =~= s);
            assert(s.drop_last().take(s.len() - 1) =~= s.drop_last());
        }
    }
}

proof fn lemma_keccak_prefix(s: Seq<MmcsGroupFoldProof>, n: int)
    requires
        0 <= n <= s.len(),
    ensures
        keccak_bytes(s.take(n)) <= keccak_bytes(s),
    decreases s.len(),
{
    if n < s.len() {
        lemma_keccak_prefix(s.drop_last(), n);
        assert(s.drop_last().take(n) =~= s.take(n));
    } else {
        assert(s.take(n) =~= s);
    }
}

proof fn lemma_group_prefix(s: Seq<MmcsGroupFoldProof>, n: int)
    requires
        0 <= n <= s.len(),
    ensures
        group_bytes(s.take(n)) <= group_bytes(s),
    decreases s.len(),
{
    if n < s.len() {
        lemma_group_prefix(s.drop_last(), n);
        assert(s.drop_last().take(n) =~= s.take(n));
    } else {
        assert(s.take(n) =~= s);
    }
}

/// `r` is the number `n` where it fits.
pub open spec fn fits_u64(r: Option<u64>, n: int) -> bool {
    match r {
        Some(v) => v == n,
        None => n > u64::MAX,
    }
}

fn sum_keccak_group_bytes(s: &[MmcsGroupFoldProof]) -> (r: Option<u64>)
    ensures
        fits_u64(r, keccak_bytes(s@) as int),
{
    let mut sum: u64 = 0;
    let mut i: usize = 0;
    while i < s.len()
        invariant
            i <= s.len(),
            sum == keccak_bytes(s@.take(i as int)),
        decreases s.len() - i,
    {
        proof {
            assert(s@.take(i + 1).drop_last() =~= s@.take(i as int));
            lemma_keccak_prefix(s@, i + 1);
        }
        let n: u64 = match &s[i] {
            MmcsGroupFoldProof::Keccak(g) => g.group_stark.len() as u64,
            MmcsGroupFoldProof::Poseidon(_) => 0,
        };
        match sum.checked_add(n) {
            Some(v) => {
                sum = v;
            },
            None => {
                return None;
            },
        }
        i += 1;
    }
    proof {
        assert(s@.take(i as int) =~= s@);
    }
    Some(sum)
}

fn sum_group_fold_bytes(s: &[MmcsGroupFoldProof]) -> (r: Option<u64>)
    ensures
        fits_u64(r, group_bytes(s@) as int),
{
    let mut sum: u64 = 0;
    let mut i: usize = 0;
    while i < s.len()
        invariant
            i <= s.len(),
            sum == group_bytes(s@.take(i as int)),
        decreases s.len() - i,
    {
        proof {
            assert(s@.take(i + 1).drop_last() =~= s@.take(i as int));
            lemma_group_prefix(s@, i + 1);
        }
        match sum.checked_add(s[i].group_stark_len() as u64) {
            Some(v) => {
                sum = v;
            },
            None => {
                return None;
            },
        }
        i += 1;
    }
    proof {
        assert(s@.take(i as int) =~= s@);
    }
    Some(sum)
}

fn extrapolate_one(size: usize, ratio: (u64, u64)) -> (r: u64)
    ensures
        r == extrapolated(size as int, ratio),
{
    proof {
        assert(size * ratio.0 >= 0) by (nonlinear_arith)
            requires
                size >= 0,
                ratio.0 >= 0,
        ;
    }
    let product: u64 = match (size as u64).checked_mul(ratio.0) {
        Some(v) => v,
        None => u64::MAX,
    };
    if ratio.1 == 0 {
        product
    } else {
        product / ratio.1
    }
}

fn extrapolate_bytes(s: &[MmcsGroupFoldProof], ratio: (u64, u64)) -> (r: Option<u64>)
    ensures
        fits_u64(r, extrapolated_bytes(s@, ratio)),
{
    let mut sum: u64 = 0;
    let mut i: usize = 0;
    while i < s.len()
        invariant
            i <= s.len(),
            sum == extrapolated_bytes(s@.take(i as int), ratio),
        decreases s.len() - i,
    {
        proof {
            assert(s@.take(i + 1).drop_last() =~= s@.take(i as int));
            lemma_extrapolated_prefix(s@, ratio, i + 1);
        }
        match sum.checked_add(extrapolate_one(s[i].group_stark_len(), ratio)) {
            Some(v) => {
                sum = v;
            },
            None => {
                return None;
            },
        }
        i += 1;
    }
    proof {
        assert(s@.take(i as int) =~= s@);
    }
    Some(sum)
}

/// Every statement has a width that a Poseidon2 group can prove.
pub open spec fn all_supported(s: Seq<MmcsPathStatement>) -> bool {
    forall|i: int| 0 <= i < s.len() ==> group_width_ok((#[trigger] s[i]).row@.len() as int)
}

/// Statements of one width that one group can prove.
pub open spec fn group_eligible(s: Seq<MmcsPathStatement>) -> bool {
    &&& s.len() > 0
    &&& 3 <= s[0].row@.len() && 4 * s[0].row@.len() <= 2 * KECCAK_RATE
    &&& forall|i: int|
        0 <= i < s.len() ==> (#[trigger] s[i]).row@.len() == s[0].row@.len()
            && s[i].siblings@.len() > 0
}

fn statements_supported(s: &[MmcsPathStatement]) -> (r: bool)
    ensures
        r == all_supported(s@),
{
    let mut i: usize = 0;
    while i < s.len()
        invariant
            i <= s.len(),
            forall|j: int| 0 <= j < i ==> group_width_ok((#[trigger] s@[j]).row@.len() as int),
        decreases s.len() - i,
    {
        if !poseidon_group_width_supported(s[i].row.len()) {
            return false;
        }
        i += 1;
    }
    true
}

fn statements_eligible(s: &[MmcsPathStatement]) -> (r: bool)
    ensures
        r == group_eligible(s@),
{
    if s.len() == 0 {
        return false;
    }
    let width: usize = s[0].row.len();
    if !m4b_width_eligible(width) {
        return false;
    }
    let mut i: usize = 0;
    while i < s.len()
        invariant
            i <= s.len(),
            s@.len() > 0,
            width == s@[0].row@.len(),
            forall|j: int|
                0 <= j < i ==> (#[trigger] s@[j]).row@.len() == width && s@[j].siblings@.len() > 0,
        decreases s.len() - i,
    {
        if s[i].row.len() != width || s[i].siblings.len() == 0 {
            return false;
        }
        i += 1;
    }
    true
}

/// A Poseidon2 group prover can be asked.
pub open spec fn group_prover_ready<Q: Fn(&[MmcsPathStatement]) -> Result<
    PoseidonGroupFoldProof,
    String,
>>(prover: Q) -> bool {
    forall|s: &[MmcsPathStatement]| call_requires(prover, (s,))
}

/// The prover may answer so to these statements.
pub open spec fn proves<Q: Fn(&[MmcsPathStatement]) -> Result<PoseidonGroupFoldProof, String>>(
    prover: Q,
    s: Seq<MmcsPathStatement>,
    x: Result<PoseidonGroupFoldProof, String>,
) -> bool {
    exists|a: &[MmcsPathStatement]| #[trigger] call_ensures(prover, (a,), x) && a@ == s
}

/// Where chunk `k` starts.
pub open spec fn chunk_start(k: int, chunk: int, len: int) -> int {
    if k * chunk < len {
        k * chunk
    } else {
        len
    }
}

/// Chunk `k` of a list.
pub open spec fn chunk_of(s: Seq<MmcsPathStatement>, chunk: int, k: int) -> Seq<MmcsPathStatement> {
    s.subrange(chunk_start(k, chunk, s.len() as int), chunk_start(k + 1, chunk, s.len() as int))
}

/// The number of chunks of a list.
pub open spec fn chunk_count(len: int, chunk: int) -> int {
    (len + chunk - 1) / chunk
}

/// The groups of the first chunks are the prover's answers.
pub open spec fn chunks_proven<
    Q: Fn(&[MmcsPathStatement]) -> Result<PoseidonGroupFoldProof, String>,
>(prover: Q, s: Seq<MmcsPathStatement>, chunk: int, g: Seq<MmcsGroupFoldProof>) -> bool {
    forall|k: int|
        0 <= k < g.len() ==> ((#[trigger] g[k]) matches MmcsGroupFoldProof::Poseidon(p) && proves(
            prover,
            chunk_of(s, chunk, k),
            Ok(p),
        ))
}

/// What proving statements in chunks may return: no groups where they cannot be grouped, else
/// one group a chunk, or the first failure.
pub open spec fn chunked_outcome<
    Q: Fn(&[MmcsPathStatement]) -> Result<PoseidonGroupFoldProof, String>,
>(
    prover: Q,
    s: Seq<MmcsPathStatement>,
    chunk: int,
    r: Result<Seq<MmcsGroupFoldProof>, String>,
) -> bool {
    if !group_eligible(s) || !all_supported(s) {
        r == Ok::<Seq<MmcsGroupFoldProof>, String>(Seq::empty())
    } else {
        match r {
            Ok(g) => g.len() == chunk_count(s.len() as int, chunk) && chunks_proven(
                prover,
                s,
                chunk,
                g,
            ),
            Err(e) => exists|g: Seq<MmcsGroupFoldProof>| #[trigger]
                chunks_proven(prover, s, chunk, g) && g.len() < chunk_count(s.len() as int, chunk)
                    && proves(prover, chunk_of(s, chunk, g.len() as int), Err(e)),
        }
    }
}

/// A vector outcome as one on sequences.
pub open spec fn groups_view(r: Result<Vec<MmcsGroupFoldProof>, String>) -> Result<
    Seq<MmcsGroupFoldProof>,
    String,
> {
    match r {
        Ok(v) => Ok(v@),
        Err(e) => Err(e),
    }
}

/// Chunk positions as the loop meets them.
proof fn lemma_chunk_step(k: int, chunk: int, len: int)
    requires
        k >= 0,
        chunk >= 1,
        len >= 1,
    ensures
        k * chunk < len <==> k < chunk_count(len, chunk),
        (k + 1) * chunk == k * chunk + chunk,
{
    let c = chunk_count(len, chunk);
    assert((k + 1) * chunk == k * chunk + chunk) by (nonlinear_arith);
    vstd::arithmetic::div_mod::lemma_fundamental_div_mod(len + chunk - 1, chunk);
    let rem = (len + chunk - 1) % chunk;
    assert(chunk * c + rem == len + chunk - 1);
    vstd::arithmetic::div_mod::lemma_mod_bound(len + chunk - 1, chunk);
    if k < c {
        assert(k * chunk + chunk <= chunk * c) by (nonlinear_arith)
            requires
                k + 1 <= c,
                chunk >= 1,
        ;
    } else {
        assert(k * chunk >= chunk * c) by (nonlinear_arith)
            requires
                k >= c,
                chunk >= 1,
        ;
    }
}

/// Proves statements in chunks of Poseidon2 groups.
pub fn try_poseidon_group_chunked<
    Q: Fn(&[MmcsPathStatement]) -> Result<PoseidonGroupFoldProof, String>,
>(s: &[MmcsPathStatement], chunk: usize, prover: &Q) -> (r: Result<
    Vec<MmcsGroupFoldProof>,
    String,
>)
    requires
        chunk >= 1,
        group_prover_ready(*prover),
    ensures
        chunked_outcome(*prover, s@, chunk as int, groups_view(r)),
{
    let mut groups: Vec<MmcsGroupFoldProof> = Vec::new();
    if !statements_eligible(s) || !statements_supported(s) {
        proof {
            assert(groups@ =~= Seq::<MmcsGroupFoldProof>::empty());
        }
        return Ok(groups);
    }
    let n: usize = s.len();
    let mut at: usize = 0;
    let ghost mut k: int = 0;
    while at < n
        invariant
            n == s@.len(),
            n >= 1,
            chunk >= 1,
            at <= n,
            k >= 0,
            groups@.len() == k,
            at == chunk_start(k, chunk as int, n as int),
            k == 0 || k <= chunk_count(n as int, chunk as int),
            group_eligible(s@),
            all_supported(s@),
            group_prover_ready(*prover),
            chunks_proven(*prover, s@, chunk as int, groups@),
        decreases n - at,
    {
        proof {
            lemma_chunk_step(k, chunk as int, n as int);
        }
        let end: usize = if chunk < n - at {
            at + chunk
        } else {
            n
        };
        let part: &[MmcsPathStatement] = slice_subrange(s, at, end);
        let reply = prover(part);
        proof {
            assert(part@ =~= chunk_of(s@, chunk as int, k));
            assert(call_ensures(*prover, (part,), reply));
            assert(proves(*prover, chunk_of(s@, chunk as int, k), reply));
        }
        match reply {
            Ok(p) => {
                groups.push(MmcsGroupFoldProof::Poseidon(p));
            },
            Err(e) => {
                proof {
                    let x = Err::<Seq<MmcsGroupFoldProof>, String>(e);
                    assert(chunks_proven(*prover, s@, chunk as int, groups@));
                    assert(proves(
                        *prover,
                        chunk_of(s@, chunk as int, groups@.len() as int),
                        Err(x->Err_0),
                    ));
                    assert(chunked_outcome(*prover, s@, chunk as int, x));
                }
                return Err(e);
            },
        }
        at = end;
        proof {
            k = k + 1;
        }
    }
    proof {
        lemma_chunk_step(k, chunk as int, n as int);
    }
    Ok(groups)
}

/// The report after a category's Poseidon2 groups were measured.
pub open spec fn measured_says(
    base: PoseidonMmcsBenchmarkReport,
    v: Seq<MmcsGroupFoldProof>,
    x: Result<PoseidonMmcsBenchmarkReport, BenchmarkError>,
) -> bool {
    let bytes = base.poseidon_measured + group_bytes(v);
    let count = base.poseidon_groups_measured + v.len();
    if bytes > u64::MAX || count > u32::MAX {
        x == Err::<PoseidonMmcsBenchmarkReport, BenchmarkError>(BenchmarkError::Overflow)
    } else {
        x == Ok::<PoseidonMmcsBenchmarkReport, BenchmarkError>(
            PoseidonMmcsBenchmarkReport {
                poseidon_measured: bytes as u64,
                poseidon_groups_measured: count as u32,
                ..base
            },
        )
    }
}

/// The report after a category's sizes were extrapolated.
pub open spec fn skipped_says(
    base: PoseidonMmcsBenchmarkReport,
    g: Seq<MmcsGroupFoldProof>,
    ratio: (u64, u64),
    x: Result<PoseidonMmcsBenchmarkReport, BenchmarkError>,
) -> bool {
    let bytes = base.poseidon_extrapolated + extrapolated_bytes(g, ratio);
    let count = base.poseidon_groups_skipped_wide + g.len();
    if bytes > u64::MAX || count > u32::MAX {
        x == Err::<PoseidonMmcsBenchmarkReport, BenchmarkError>(BenchmarkError::Overflow)
    } else {
        x == Ok::<PoseidonMmcsBenchmarkReport, BenchmarkError>(
            PoseidonMmcsBenchmarkReport {
                poseidon_extrapolated: bytes as u64,
                poseidon_groups_skipped_wide: count as u32,
                ..base
            },
        )
    }
}

/// What a category of statements, with its Keccak groups, may add to a report.
#[verifier::opaque]
pub open spec fn category_says<
    Q: Fn(&[MmcsPathStatement]) -> Result<PoseidonGroupFoldProof, String>,
>(
    prover: Q,
    chunk: int,
    ratio: (u64, u64),
    c: (Seq<MmcsPathStatement>, Seq<MmcsGroupFoldProof>),
    before: PoseidonMmcsBenchmarkReport,
    x: Result<PoseidonMmcsBenchmarkReport, BenchmarkError>,
) -> bool {
    let bytes = before.keccak_total + keccak_bytes(c.1);
    let count = before.keccak_groups + c.1.len();
    let base = PoseidonMmcsBenchmarkReport {
        keccak_total: bytes as u64,
        keccak_groups: count as u32,
        ..before
    };
    if bytes > u64::MAX || count > u32::MAX {
        x == Err::<PoseidonMmcsBenchmarkReport, BenchmarkError>(BenchmarkError::Overflow)
    } else if c.0.len() == 0 {
        x == Ok::<PoseidonMmcsBenchmarkReport, BenchmarkError>(base)
    } else if all_supported(c.0) {
        exists|p: Result<Seq<MmcsGroupFoldProof>, String>| #[trigger]
            chunked_outcome(prover, c.0, chunk, p) && match p {
                Err(e) => x == Err::<PoseidonMmcsBenchmarkReport, BenchmarkError>(
                    BenchmarkError::Poseidon(e),
                ),
                Ok(v) => measured_says(base, v, x),
            }
    } else {
        skipped_says(base, c.1, ratio, x)
    }
}

/// A counter increased by a list's length, if it fits.
fn counted(n: u32, len: usize) -> (r: Option<u32>)
    ensures
        match r {
            Some(v) => v == n + len,
            None => n + len > u32::MAX,
        },
{
    if len > (u32::MAX - n) as usize {
        None
    } else {
        Some(n + len as u32)
    }
}

/// Adds a category of statements, with its Keccak groups, to a report.
fn benchmark_category<Q: Fn(&[MmcsPathStatement]) -> Result<PoseidonGroupFoldProof, String>>(
    s: &[MmcsPathStatement],
    g: &[MmcsGroupFoldProof],
    ratio: (u64, u64),
    chunk: usize,
    prover: &Q,
    before: PoseidonMmcsBenchmarkReport,
) -> (x: Result<PoseidonMmcsBenchmarkReport, BenchmarkError>)
    requires
        chunk >= 1,
        group_prover_ready(*prover),
    ensures
        category_says(*prover, chunk as int, ratio, (s@, g@), before, x),
{
    proof {
        reveal(category_says);
    }
    let keccak_total: u64 = match sum_keccak_group_bytes(g) {
        None => {
            return Err(BenchmarkError::Overflow);
        },
        Some(b) => match before.keccak_total.checked_add(b) {
            None => {
                return Err(BenchmarkError::Overflow);
            },
            Some(t) => t,
        },
    };
    let keccak_groups: u32 = match counted(before.keccak_groups, g.len()) {
        None => {
            return Err(BenchmarkError::Overflow);
        },
        Some(n) => n,
    };
    let base = PoseidonMmcsBenchmarkReport { keccak_total, keccak_groups, ..before };
    if s.len() == 0 {
        return Ok(base);
    }
    if statements_supported(s) {
        let p = try_poseidon_group_chunked(s, chunk, prover);
        proof {
            assert(chunked_outcome(*prover, (s@, g@).0, chunk as int, groups_view(p)));
        }
        let v = match p {
            Ok(v) => v,
            Err(e) => {
                return Err(BenchmarkError::Poseidon(e));
            },
        };
        let bytes: u64 = match sum_group_fold_bytes(v.as_slice()) {
            None => {
                return Err(BenchmarkError::Overflow);
            },
            Some(b) => match base.poseidon_measured.checked_add(b) {
                None => {
                    return Err(BenchmarkError::Overflow);
                },
                Some(t) => t,
            },
        };
        match counted(base.poseidon_groups_measured, v.len()) {
            None => Err(BenchmarkError::Overflow),
            Some(n) => Ok(
                PoseidonMmcsBenchmarkReport {
                    poseidon_measured: bytes,
                    poseidon_groups_measured: n,
                    ..base
                },
            ),
        }
    } else {
        let bytes: u64 = match extrapolate_bytes(g, ratio) {
            None => {
                return Err(BenchmarkError::Overflow);
            },
            Some(b) => match base.poseidon_extrapolated.checked_add(b) {
                None => {
                    return Err(BenchmarkError::Overflow);
                },
                Some(t) => t,
            },
        };
        match counted(base.poseidon_groups_skipped_wide, g.len()) {
            None => Err(BenchmarkError::Overflow),
            Some(n) => Ok(
                PoseidonMmcsBenchmarkReport {
                    poseidon_extrapolated: bytes,
                    poseidon_groups_skipped_wide: n,
                    ..base
                },
            ),
        }
    }
}

/// The categories of the folding rounds: each Keccak group with the statements it covers, depth
/// after depth.
pub open spec fn commit_categories(
    entries: Seq<(usize, Vec<MmcsPathStatement>)>,
    groups: Seq<MmcsGroupFoldProof>,
    i: int,
    off: int,
    g: int,
) -> Seq<(Seq<MmcsPathStatement>, Seq<MmcsGroupFoldProof>)>
    decreases entries.len() - i, groups.len() - g,
{
    if i < 0 || i >= entries.len() {
        Seq::empty()
    } else if off < entries[i].1@.len() && g < groups.len() {
        let s = entries[i].1@;
        let to = off + groups[g].path_count_spec();
        let end = if to < s.len() {
            to
        } else {
            s.len() as int
        };
        seq![(s.subrange(off, end), seq![groups[g]])] + commit_categories(
            entries,
            groups,
            i,
            to,
            g + 1,
        )
    } else {
        commit_categories(entries, groups, i + 1, 0, g)
    }
}

/// The category of a kind of statements that a leaf may have.
pub open spec fn optional_category(
    s: Option<Vec<MmcsPathStatement>>,
    g: Seq<MmcsGroupFoldProof>,
) -> Seq<(Seq<MmcsPathStatement>, Seq<MmcsGroupFoldProof>)> {
    match s {
        Some(v) => seq![(v@, g)],
        None => Seq::empty(),
    }
}

/// Every category of a leaf.
pub open spec fn categories(s: LeafMmcsGroupStatements, k: LeafMmcsFoldGroups) -> Seq<
    (Seq<MmcsPathStatement>, Seq<MmcsGroupFoldProof>),
> {
    seq![(s.val_trace@, k.val_trace@)] + optional_category(s.val_quot, k.val_quot@)
        + optional_category(s.val_quot_batch, k.val_quot_batch@) + optional_category(
        s.chal_first_layer,
        k.chal_first_layer@,
    ) + commit_categories(s.chal_commit@, k.chal_commit@, 0, 0, 0)
}

/// `st` lists the reports after each of the first categories.
pub open spec fn is_run<Q: Fn(&[MmcsPathStatement]) -> Result<PoseidonGroupFoldProof, String>>(
    prover: Q,
    chunk: int,
    ratio: (u64, u64),
    cats: Seq<(Seq<MmcsPathStatement>, Seq<MmcsGroupFoldProof>)>,
    st: Seq<PoseidonMmcsBenchmarkReport>,
) -> bool {
    &&& 1 <= st.len() <= cats.len() + 1
    &&& st[0] == no_groups()
    &&& forall|j: int|
        0 <= j < st.len() - 1 ==> category_says(
            prover,
            chunk,
            ratio,
            cats[j],
            #[trigger] st[j],
            Ok(st[j + 1]),
        )
}

/// The run may fail with `e` after these reports.
pub open spec fn run_fails<Q: Fn(&[MmcsPathStatement]) -> Result<PoseidonGroupFoldProof, String>>(
    prover: Q,
    chunk: int,
    ratio: (u64, u64),
    cats: Seq<(Seq<MmcsPathStatement>, Seq<MmcsGroupFoldProof>)>,
    st: Seq<PoseidonMmcsBenchmarkReport>,
    e: BenchmarkError,
) -> bool {
    &&& is_run(prover, chunk, ratio, cats, st)
    &&& if st.len() <= cats.len() {
        category_says(prover, chunk, ratio, cats[st.len() - 1], st.last(), Err(e))
    } else {
        e == BenchmarkError::Overflow && st.last().poseidon_measured
            + st.last().poseidon_extrapolated > u64::MAX
    }
}

/// The run may end in `r` after these reports.
pub open spec fn run_ends<Q: Fn(&[MmcsPathStatement]) -> Result<PoseidonGroupFoldProof, String>>(
    prover: Q,
    chunk: int,
    ratio: (u64, u64),
    cats: Seq<(Seq<MmcsPathStatement>, Seq<MmcsGroupFoldProof>)>,
    st: Seq<PoseidonMmcsBenchmarkReport>,
    r: PoseidonMmcsBenchmarkReport,
) -> bool {
    let last = st.last();
    &&& is_run(prover, chunk, ratio, cats, st)
    &&& st.len() == cats.len() + 1
    &&& last.poseidon_measured + last.poseidon_extrapolated <= u64::MAX
    &&& r == (PoseidonMmcsBenchmarkReport {
        poseidon_total_estimate: (last.poseidon_measured + last.poseidon_extrapolated) as u64,
        ..last
    })
}

/// What measuring the groups of a leaf at a given ratio may return.
pub open spec fn measured_outcome<
    Q: Fn(&[MmcsPathStatement]) -> Result<PoseidonGroupFoldProof, String>,
>(
    prover: Q,
    chunk: int,
    ratio: (u64, u64),
    cats: Seq<(Seq<MmcsPathStatement>, Seq<MmcsGroupFoldProof>)>,
    r: Result<PoseidonMmcsBenchmarkReport, BenchmarkError>,
) -> bool {
    match r {
        Ok(x) => exists|st: Seq<PoseidonMmcsBenchmarkReport>| #[trigger]
            run_ends(prover, chunk, ratio, cats, st, x),
        Err(e) => exists|st: Seq<PoseidonMmcsBenchmarkReport>| #[trigger]
            run_fails(prover, chunk, ratio, cats, st, e),
    }
}

/// A run that fails at a category fails as a whole.
proof fn lemma_run_fails<Q: Fn(&[MmcsPathStatement]) -> Result<PoseidonGroupFoldProof, String>>(
    prover: Q,
    chunk: int,
    ratio: (u64, u64),
    cats: Seq<(Seq<MmcsPathStatement>, Seq<MmcsGroupFoldProof>)>,
    st: Seq<PoseidonMmcsBenchmarkReport>,
    e: BenchmarkError,
)
    requires
        run_fails(prover, chunk, ratio, cats, st, e),
    ensures
        measured_outcome(prover, chunk, ratio, cats, Err(e)),
{
    let r = Err::<PoseidonMmcsBenchmarkReport, BenchmarkError>(e);
    assert(run_fails(prover, chunk, ratio, cats, st, r->Err_0));
    assert(measured_outcome(prover, chunk, ratio, cats, r));
}

/// A run over every category ends in its report.
proof fn lemma_run_ends<Q: Fn(&[MmcsPathStatement]) -> Result<PoseidonGroupFoldProof, String>>(
    prover: Q,
    chunk: int,
    ratio: (u64, u64),
    cats: Seq<(Seq<MmcsPathStatement>, Seq<MmcsGroupFoldProof>)>,
    st: Seq<PoseidonMmcsBenchmarkReport>,
    x: PoseidonMmcsBenchmarkReport,
)
    requires
        run_ends(prover, chunk, ratio, cats, st, x),
    ensures
        measured_outcome(prover, chunk, ratio, cats, Ok(x)),
{
    let r = Ok::<PoseidonMmcsBenchmarkReport, BenchmarkError>(x);
    assert(run_ends(prover, chunk, ratio, cats, st, r->Ok_0));
    assert(measured_outcome(prover, chunk, ratio, cats, r));
}

/// A run goes on with the next category.
proof fn lemma_run_grows<Q: Fn(&[MmcsPathStatement]) -> Result<PoseidonGroupFoldProof, String>>(
    prover: Q,
    chunk: int,
    ratio: (u64, u64),
    cats: Seq<(Seq<MmcsPathStatement>, Seq<MmcsGroupFoldProof>)>,
    st: Seq<PoseidonMmcsBenchmarkReport>,
    x: PoseidonMmcsBenchmarkReport,
)
    requires
        is_run(prover, chunk, ratio, cats, st),
        st.len() <= cats.len(),
        category_says(prover, chunk, ratio, cats[st.len() - 1], st.last(), Ok(x)),
    ensures
        is_run(prover, chunk, ratio, cats, st.push(x)),
{
    let next = st.push(x);
    assert forall|j: int| 0 <= j < next.len() - 1 implies category_says(
        prover,
        chunk,
        ratio,
        cats[j],
        #[trigger] next[j],
        Ok(next[j + 1]),
    ) by {
        assert(next[j] == st[j]);
        if j < st.len() - 1 {
            assert(next[j + 1] == st[j + 1]);
        }
    }
}

/// Measures the groups of a leaf at a given ratio.
pub fn benchmark_at_ratio<Q: Fn(&[MmcsPathStatement]) -> Result<PoseidonGroupFoldProof, String>>(
    stmts: &LeafMmcsGroupStatements,
    keccak: &LeafMmcsFoldGroups,
    ratio: (u64, u64),
    chunk: usize,
    prover: &Q,
) -> (r: Result<PoseidonMmcsBenchmarkReport, BenchmarkError>)
    requires
        chunk >= 1,
        group_prover_ready(*prover),
    ensures
        measured_outcome(*prover, chunk as int, ratio, categories(*stmts, *keccak), r),
{
    let ghost cats = categories(*stmts, *keccak);
    let ghost quot = optional_category(stmts.val_quot, keccak.val_quot@);
    let ghost batch = optional_category(stmts.val_quot_batch, keccak.val_quot_batch@);
    let ghost first = optional_category(stmts.chal_first_layer, keccak.chal_first_layer@);
    let ghost rounds = commit_categories(stmts.chal_commit@, keccak.chal_commit@, 0, 0, 0);
    let ghost mut st = seq![no_groups()];
    let mut report = PoseidonMmcsBenchmarkReport::default();
    proof {
        assert(is_run(*prover, chunk as int, ratio, cats, st));
        assert(cats[0] == (stmts.val_trace@, keccak.val_trace@));
    }
    match benchmark_category(
        stmts.val_trace.as_slice(),
        keccak.val_trace.as_slice(),
        ratio,
        chunk,
        prover,
        report,
    ) {
        Ok(x) => {
            proof {
                lemma_run_grows(*prover, chunk as int, ratio, cats, st, x);
                st = st.push(x);
            }
            report = x;
        },
        Err(e) => {
            proof {
                lemma_run_fails(*prover, chunk as int, ratio, cats, st, e);
            }
            return Err(e);
        },
    }
    if let Some(s) = &stmts.val_quot {
        proof {
            assert(cats[1] == quot[0]);
        }
        match benchmark_category(
            s.as_slice(),
            keccak.val_quot.as_slice(),
            ratio,
            chunk,
            prover,
            report,
        ) {
            Ok(x) => {
                proof {
                    lemma_run_grows(*prover, chunk as int, ratio, cats, st, x);
                    st = st.push(x);
                }
                report = x;
            },
            Err(e) => {
                proof {
                    lemma_run_fails(*prover, chunk as int, ratio, cats, st, e);
                }
                return Err(e);
            },
        }
    }
    if let Some(s) = &stmts.val_quot_batch {
        proof {
            assert(cats[st.len() - 1] == batch[0]);
        }
        match benchmark_category(
            s.as_slice(),
            keccak.val_quot_batch.as_slice(),
            ratio,
            chunk,
            prover,
            report,
        ) {
            Ok(x) => {
                proof {
                    lemma_run_grows(*prover, chunk as int, ratio, cats, st, x);
                    st = st.push(x);
                }
                report = x;
            },
            Err(e) => {
                proof {
                    lemma_run_fails(*prover, chunk as int, ratio, cats, st, e);
                }
                return Err(e);
            },
        }
    }
    if let Some(s) = &stmts.chal_first_layer {
        proof {
            assert(cats[st.len() - 1] == first[0]);
        }
        match benchmark_category(
            s.as_slice(),
            keccak.chal_first_layer.as_slice(),
            ratio,
            chunk,
            prover,
            report,
        ) {
            Ok(x) => {
                proof {
                    lemma_run_grows(*prover, chunk as int, ratio, cats, st, x);
                    st = st.push(x);
                }
                report = x;
            },
            Err(e) => {
                proof {
                    lemma_run_fails(*prover, chunk as int, ratio, cats, st, e);
                }
                return Err(e);
            },
        }
    }
    let mut i: usize = 0;
    let mut off: usize = 0;
    let mut g: usize = 0;
    let entries = &stmts.chal_commit;
    let groups = &keccak.chal_commit;
    proof {
        assert(cats =~= cats.take(st.len() - 1) + rounds);
    }
    while i < entries.len()
        invariant
            chunk >= 1,
            group_prover_ready(*prover),
            i <= entries.len(),
            g <= groups.len(),
            i < entries.len() ==> off <= usize::MAX,
            cats == categories(*stmts, *keccak),
            is_run(*prover, chunk as int, ratio, cats, st),
            st.last() == report,
            cats == cats.take(st.len() - 1) + commit_categories(
                entries@,
                groups@,
                i as int,
                off as int,
                g as int,
            ),
        decreases entries.len() - i, groups.len() - g,
    {
        let s = entries[i].1.as_slice();
        if off < s.len() && g < groups.len() {
            let n: usize = groups[g].path_count() as usize;
            let end: usize = if n < s.len() - off {
                off + n
            } else {
                s.len()
            };
            let part = slice_subrange(s, off, end);
            let one = slice_subrange(groups.as_slice(), g, g + 1);
            let ghost rest = commit_categories(
                entries@,
                groups@,
                i as int,
                off + groups@[g as int].path_count_spec(),
                g + 1,
            );
            proof {
                assert(one@ =~= seq![groups@[g as int]]);
                assert(cats[st.len() - 1] == (part@, one@));
            }
            match benchmark_category(part, one, ratio, chunk, prover, report) {
                Ok(x) => {
                    proof {
                        lemma_run_grows(*prover, chunk as int, ratio, cats, st, x);
                        st = st.push(x);
                        assert(cats =~= cats.take(st.len() - 1) + rest);
                    }
                    report = x;
                },
                Err(e) => {
                    proof {
                        lemma_run_fails(*prover, chunk as int, ratio, cats, st, e);
                    }
                    return Err(e);
                },
            }
            g += 1;
            if n < s.len() - off {
                off += n;
            } else {
                proof {
                    lemma_categories_past(
                        entries@,
                        groups@,
                        i as int,
                        off + groups@[g - 1].path_count_spec(),
                        s@.len() as int,
                        g as int,
                    );
                }
                off = s.len();
            }
        } else {
            i += 1;
            off = 0;
        }
    }
    proof {
        assert(cats =~= cats.take(st.len() - 1));
    }
    match report.poseidon_measured.checked_add(report.poseidon_extrapolated) {
        None => {
            proof {
                lemma_run_fails(
                    *prover,
                    chunk as int,
                    ratio,
                    cats,
                    st,
                    BenchmarkError::Overflow,
                );
            }
            Err(BenchmarkError::Overflow)
        },
        Some(t) => {
            let done = PoseidonMmcsBenchmarkReport { poseidon_total_estimate: t, ..report };
            proof {
                lemma_run_ends(*prover, chunk as int, ratio, cats, st, done);
            }
            Ok(done)
        },
    }
}

/// Past the end of a depth it does not matter how far.
proof fn lemma_categories_past(
    entries: Seq<(usize, Vec<MmcsPathStatement>)>,
    groups: Seq<MmcsGroupFoldProof>,
    i: int,
    a: int,
    b: int,
    g: int,
)
    requires
        0 <= i < entries.len(),
        entries[i].1@.len() <= a,
        entries[i].1@.len() <= b,
    ensures
        commit_categories(entries, groups, i, a, g) == commit_categories(entries, groups, i, b, g),
{
}

/// The row of the reference statements.
pub open spec fn reference_row() -> Seq<int> {
    seq![1, 2, 3]
}

/// The sibling of the reference statements.
pub open spec fn reference_sibling() -> Seq<u8> {
    row_bytes(seq![9, 9, 9, 9, 9, 9, 9, 9])
}

/// `s` is reference statement `i`, with its root under the production hash or under Keccak.
pub open spec fn is_reference(s: MmcsPathStatement, i: int, production: bool) -> bool {
    &&& vals(s.row@) == reference_row()
    &&& s.siblings@.len() == 1
    &&& s.siblings@[0]@ == reference_sibling()
    &&& s.index == i
    &&& s.root@ == if production {
        path_root(poseidon_pair(), poseidon_leaf(reference_row()), s.siblings@, i)
    } else {
        path_root(keccak_pair(), keccak_leaf(reference_row()), s.siblings@, i)
    }
}

/// The reference group: one path on each side.
pub open spec fn are_references(s: Seq<MmcsPathStatement>, production: bool) -> bool {
    s.len() == 2 && is_reference(s[0], 0, production) && is_reference(s[1], 1, production)
}

fn reference_statement(right: bool, production: bool) -> (s: MmcsPathStatement)
    ensures
        is_reference(
            s,
            if right {
                1
            } else {
                0
            },
            production,
        ),
{
    let mut row: Vec<Val> = Vec::new();
    row.push(Val::from_u32(1));
    row.push(Val::from_u32(2));
    row.push(Val::from_u32(3));
    let limbs = [Val::from_u32(9); 8];
    let sibling = pack_digest(&limbs);
    proof {
        assert(vals(row@) =~= reference_row());
        assert(vals(limbs@) =~= seq![9int, 9, 9, 9, 9, 9, 9, 9]);
    }
    let leaf = if production {
        hash_val_leaf(row.as_slice())
    } else {
        hash_val_leaf_keccak(row.as_slice())
    };
    let root = match (right, production) {
        (true, true) => compress_digests(sibling, leaf),
        (false, true) => compress_digests(leaf, sibling),
        (true, false) => compress_digests_keccak(sibling, leaf),
        (false, false) => compress_digests_keccak(leaf, sibling),
    };
    let mut siblings: Vec<[u8; 32]> = Vec::new();
    siblings.push(sibling);
    proof {
        reveal_with_fuel(path_digest, 2);
        assert(nat_bit(1, 0));
        assert(!nat_bit(0, 0));
    }
    MmcsPathStatement {
        row,
        siblings,
        index: if right {
            1
        } else {
            0
        },
        root,
    }
}

fn reference_statements(production: bool) -> (r: Vec<MmcsPathStatement>)
    ensures
        are_references(r@, production),
{
    let mut r: Vec<MmcsPathStatement> = Vec::new();
    r.push(reference_statement(false, production));
    r.push(reference_statement(true, production));
    r
}

/// What the two reference groups' sizes lead to.
pub open spec fn ratio_of<
    F: Fn(&MmcsGroupPathAir, &RowMajorMatrix, &[Val]) -> Result<Vec<u8>, String>,
    R: Fn(&[MmcsPathStatement]) -> Result<PoseidonGroupFoldProof, String>,
>(
    keccak: F,
    poseidon: R,
    k: Seq<MmcsPathStatement>,
    p: Seq<MmcsPathStatement>,
    x: Result<(u64, u64), BenchmarkError>,
) -> bool {
    exists|a: Result<KeccakGroupFoldProof, GroupFoldError>| #[trigger]
        group_fold_outcome(keccak, k, a) && match a {
            Err(e) => x == Err::<(u64, u64), BenchmarkError>(BenchmarkError::Keccak(e)),
            Ok(a) => exists|b: Result<PoseidonGroupFoldProof, String>| #[trigger]
                proves(poseidon, p, b) && match b {
                    Err(e) => x == Err::<(u64, u64), BenchmarkError>(BenchmarkError::Poseidon(e)),
                    Ok(b) => if a.group_stark@.len() == 0 {
                        x == Err::<(u64, u64), BenchmarkError>(BenchmarkError::EmptyReference)
                    } else {
                        x matches Ok(r) && r.0 == b.group_stark@.len() && r.1
                            == a.group_stark@.len()
                    },
                },
        }
}

/// What comparing the reference groups may return.
pub open spec fn ratio_outcome<
    F: Fn(&MmcsGroupPathAir, &RowMajorMatrix, &[Val]) -> Result<Vec<u8>, String>,
    R: Fn(&[MmcsPathStatement]) -> Result<PoseidonGroupFoldProof, String>,
>(keccak: F, poseidon: R, x: Result<(u64, u64), BenchmarkError>) -> bool {
    exists|k: Seq<MmcsPathStatement>, p: Seq<MmcsPathStatement>|
        {
            &&& #[trigger] are_references(k, false)
            &&& #[trigger] are_references(p, true)
            &&& ratio_of(keccak, poseidon, k, p, x)
        }
}

/// The sizes of the Poseidon2 and the Keccak reference group.
pub fn poseidon_keccak_group_size_ratio_w3<
    F: Fn(&MmcsGroupPathAir, &RowMajorMatrix, &[Val]) -> Result<Vec<u8>, String>,
    R: Fn(&[MmcsPathStatement]) -> Result<PoseidonGroupFoldProof, String>,
>(keccak: &F, poseidon: &R) -> (x: Result<(u64, u64), BenchmarkError>)
    requires
        forall|a: &MmcsGroupPathAir, m: &RowMajorMatrix, p: &[Val]|
            call_requires(*keccak, (a, m, p)),
        group_prover_ready(*poseidon),
    ensures
        ratio_outcome(*keccak, *poseidon, x),
{
    let k = reference_statements(false);
    let p = reference_statements(true);
    let a = generate_keccak_group_fold_proof(k.as_slice(), keccak);
    proof {
        assert(are_references(k@, false) && are_references(p@, true));
        assert(group_fold_outcome(*keccak, k@, a));
    }
    let a = match a {
        Ok(a) => a,
        Err(e) => {
            return Err(BenchmarkError::Keccak(e));
        },
    };
    let part: &[MmcsPathStatement] = p.as_slice();
    let b = poseidon(part);
    proof {
        assert(call_ensures(*poseidon, (part,), b));
        assert(proves(*poseidon, p@, b));
    }
    let b = match b {
        Ok(b) => b,
        Err(e) => {
            return Err(BenchmarkError::Poseidon(e));
        },
    };
    if a.group_stark.len() == 0 {
        return Err(BenchmarkError::EmptyReference);
    }
    Ok((b.group_stark.len() as u64, a.group_stark.len() as u64))
}

/// Measures the groups of a leaf. `reference` proves the Poseidon2 reference group and `prover`
/// the groups of the leaf.
pub fn benchmark_poseidon_mmcs_groups<
    F: Fn(&MmcsGroupPathAir, &RowMajorMatrix, &[Val]) -> Result<Vec<u8>, String>,
    R: Fn(&[MmcsPathStatement]) -> Result<PoseidonGroupFoldProof, String>,
    Q: Fn(&[MmcsPathStatement]) -> Result<PoseidonGroupFoldProof, String>,
>(
    stmts: &LeafMmcsGroupStatements,
    groups: &LeafMmcsFoldGroups,
    chunk: usize,
    keccak: &F,
    reference: &R,
    prover: &Q,
) -> (r: Result<PoseidonMmcsBenchmarkReport, BenchmarkError>)
    requires
        chunk >= 1,
        forall|a: &MmcsGroupPathAir, m: &RowMajorMatrix, p: &[Val]|
            call_requires(*keccak, (a, m, p)),
        group_prover_ready(*reference),
        group_prover_ready(*prover),
    ensures
        exists|x: Result<(u64, u64), BenchmarkError>| #[trigger]
            ratio_outcome(*keccak, *reference, x) && match x {
                Err(e) => r == Err::<PoseidonMmcsBenchmarkReport, BenchmarkError>(e),
                Ok(ratio) => measured_outcome(
                    *prover,
                    chunk as int,
                    ratio,
                    categories(*stmts, *groups),
                    r,
                ),
            },
{
    let x = poseidon_keccak_group_size_ratio_w3(keccak, reference);
    proof {
        assert(ratio_outcome(*keccak, *reference, x));
    }
    match x {
        Ok(ratio) => benchmark_at_ratio(stmts, groups, ratio, chunk, prover),
        Err(e) => Err(e),
    }
}

} // verus!
