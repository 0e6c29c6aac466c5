//! Path bundles bound to a proof, where some kinds of paths are proven in groups.
use vstd::prelude::*;

use crate::batch_path::{
    verify_chal_batch_path_digests, verify_chal_batch_path_replay, FriChalBatchPathProof,
};
use crate::bits::shift_right;
use crate::chal_mmcs::{
    bind_fri_chal_mmcs_with_challenges, chal_bind_report, chal_bundle_report, check_chal_query,
    rounds_fit, ChalMmcsError, FriChalMmcsQueryProof,
};
use crate::checks::{
    checked, first_some, in_turn, lemma_first_some_none, lemma_first_some_stops, lemma_turn_fails,
};
use crate::field::{vals, Val};
use crate::fri_fs_replay::{
    is_replay, params_ok, replay_fri_challenges, replay_report, AggFriChallenges,
};
use crate::fri_mmcs_bind::AggFriMmcsBundle;
use crate::fri_mmcs_group_m4b::{
    group_verify_outcome, verify_keccak_group_fold_proof, MmcsGroupPathAir, MmcsPathStatement,
};
use crate::fri_mmcs_path::{path_record_valid, verify_fri_mmcs_path_proof, FriMmcsPathProof};
use crate::fri_ro::RoInput;
use crate::mmcs_group_fold::{MmcsGroupFoldProof, PoseidonGroupFoldProof};
use crate::mmcs_statements::{
    append_statements, are_statements, claims_of, collect_statements, statements_report,
    LeafMmcsGroupStatements, PathClaim, StatementError,
};
use crate::mmcs_strip::{some_depth, LeafMmcsFoldGroups};
use crate::path_strip::{
    batch_bare, batch_starks_stripped, path_bare, path_digests_valid, path_starks_stripped,
    verify_fri_mmcs_path_digests,
};
use crate::pcs_view::{FriParamsView, StarkProofView};
use crate::proof_system::verifier_ready;
use crate::val_mmcs::{
    bind_fri_val_mmcs_with_challenges, check_val_meta, query_of, quotient_batch,
    quotient_batch_valid, quotient_position, trace_position, val_bundle_report, val_geometry,
    val_meta_report, val_shape_report, FriValMmcsQueryProof, ValGeometry, ValMmcsError,
};

verus! {

/// The paths a list of groups covers.
#[derive(Debug, Clone, Copy, PartialEq, Eq)]
pub enum GroupLabel {
    Pcs,
    ValTrace,
    ValQuot,
    ValQuotBatch,
    ChalMerged,
    ChalFirstLayer,
    ChalCommit,
}

/// Why a bundle with groups does not belong to a proof.
#[derive(Debug, Clone, PartialEq, Eq)]
pub enum GroupBindError {
    Val(ValMmcsError),
    Chal(ChalMmcsError),
    Statement(StatementError),
    /// A group covers more paths than are left.
    Overflow(GroupLabel, usize),
    /// A group does not verify.
    Failed(GroupLabel, usize),
    /// Paths are left that no group covers.
    Uncovered(GroupLabel),
    /// There are groups for paths that cannot be stated.
    Unavailable(GroupLabel),
    MissingCommit(usize),
    CommitDepth(usize),
    ExtraCommit,
    TraceDigests(usize),
    QuotientDigests(usize),
    BatchDigests(usize),
}

/// A check of a Poseidon2 group can be made.
pub open spec fn poseidon_ready<P: Fn(&[MmcsPathStatement], &PoseidonGroupFoldProof) -> bool>(
    check: P,
) -> bool {
    forall|s: &[MmcsPathStatement], p: &PoseidonGroupFoldProof| call_requires(check, (s, p))
}

/// The check of a group may return `v` for these claims.
pub open spec fn group_says<
    K: Fn(&MmcsGroupPathAir, &[Val], &[u8]) -> bool,
    P: Fn(&[MmcsPathStatement], &PoseidonGroupFoldProof) -> bool,
>(keccak: K, poseidon: P, claims: Seq<PathClaim>, g: MmcsGroupFoldProof, v: bool) -> bool {
    match g {
        MmcsGroupFoldProof::Keccak(p) => exists|s: Seq<MmcsPathStatement>| #[trigger]
            claims_of(s) == claims && group_verify_outcome(keccak, s, p, v),
        MmcsGroupFoldProof::Poseidon(p) => exists|s: &[MmcsPathStatement]| #[trigger]
            claims_of(s@) == claims && call_ensures(poseidon, (s, &p), v),
    }
}

/// Number of paths that the first `k` groups cover.
pub open spec fn covered(groups: Seq<MmcsGroupFoldProof>, k: nat) -> int
    decreases k,
{
    if k == 0 {
        0
    } else {
        covered(groups, (k - 1) as nat) + groups[k - 1].path_count_spec()
    }
}

/// What checking group `k` of a list may return, where the groups cover the claims in turn.
pub open spec fn chunk_says<
    K: Fn(&MmcsGroupPathAir, &[Val], &[u8]) -> bool,
    P: Fn(&[MmcsPathStatement], &PoseidonGroupFoldProof) -> bool,
>(
    keccak: K,
    poseidon: P,
    claims: Seq<PathClaim>,
    groups: Seq<MmcsGroupFoldProof>,
    label: GroupLabel,
    k: int,
    x: Result<(), GroupBindError>,
) -> bool {
    let off = covered(groups, k as nat);
    let end = covered(groups, (k + 1) as nat);
    if end > claims.len() {
        x == Err::<(), GroupBindError>(GroupBindError::Overflow(label, k as usize))
    } else {
        exists|v: bool| #[trigger]
            group_says(keccak, poseidon, claims.subrange(off, end), groups[k], v) && x == (if v {
                Ok::<(), GroupBindError>(())
            } else {
                Err::<(), GroupBindError>(GroupBindError::Failed(label, k as usize))
            })
    }
}

/// What checking that a list of groups covers the claims may return.
#[verifier::opaque]
pub open spec fn chunks_say<
    K: Fn(&MmcsGroupPathAir, &[Val], &[u8]) -> bool,
    P: Fn(&[MmcsPathStatement], &PoseidonGroupFoldProof) -> bool,
>(
    keccak: K,
    poseidon: P,
    claims: Seq<PathClaim>,
    groups: Seq<MmcsGroupFoldProof>,
    label: GroupLabel,
    r: Result<(), GroupBindError>,
) -> bool {
    let step = |k: int, x: Result<(), GroupBindError>|
        chunk_says(keccak, poseidon, claims, groups, label, k, x);
    let whole = covered(groups, groups.len()) == claims.len();
    match r {
        Ok(_) => in_turn(groups.len(), step, Ok(())) && whole,
        Err(e) => in_turn(groups.len(), step, Err(e)) || (in_turn(groups.len(), step, Ok(()))
            && !whole && e == GroupBindError::Uncovered(label)),
    }
}

/// Checks one group.
fn verify_group<
    K: Fn(&MmcsGroupPathAir, &[Val], &[u8]) -> bool,
    P: Fn(&[MmcsPathStatement], &PoseidonGroupFoldProof) -> bool,
>(keccak: &K, poseidon: &P, stmts: &[MmcsPathStatement], g: &MmcsGroupFoldProof) -> (v: bool)
    requires
        verifier_ready::<MmcsGroupPathAir, K>(*keccak),
        poseidon_ready(*poseidon),
    ensures
        group_says(*keccak, *poseidon, claims_of(stmts@), *g, v),
{
    match g {
        MmcsGroupFoldProof::Keccak(p) => verify_keccak_group_fold_proof(stmts, p, keccak),
        MmcsGroupFoldProof::Poseidon(p) => poseidon(stmts, p),
    }
}

/// Claims of a part of a list of statements.
proof fn lemma_claims_subrange(s: Seq<MmcsPathStatement>, a: int, b: int)
    requires
        0 <= a <= b <= s.len(),
    ensures
        claims_of(s.subrange(a, b)) == claims_of(s).subrange(a, b),
{
    assert(claims_of(s.subrange(a, b)) =~= claims_of(s).subrange(a, b));
}

/// Checks that a list of groups covers the statements in turn.
fn verify_group_chunks<
    K: Fn(&MmcsGroupPathAir, &[Val], &[u8]) -> bool,
    P: Fn(&[MmcsPathStatement], &PoseidonGroupFoldProof) -> bool,
>(
    keccak: &K,
    poseidon: &P,
    stmts: &Vec<MmcsPathStatement>,
    groups: &Vec<MmcsGroupFoldProof>,
    label: GroupLabel,
) -> (r: Result<(), GroupBindError>)
    requires
        verifier_ready::<MmcsGroupPathAir, K>(*keccak),
        poseidon_ready(*poseidon),
    ensures
        chunks_say(*keccak, *poseidon, claims_of(stmts@), groups@, label, r),
{
    proof {
        reveal(chunks_say);
    }
    let ghost claims = claims_of(stmts@);
    let ghost step = |k: int, x: Result<(), GroupBindError>|
        chunk_says(*keccak, *poseidon, claims, groups@, label, k, x);
    let mut off: usize = 0;
    let mut k: usize = 0;
    while k < groups.len()
        invariant
            k <= groups.len(),
            verifier_ready::<MmcsGroupPathAir, K>(*keccak),
            poseidon_ready(*poseidon),
            claims == claims_of(stmts@),
            step == (|k: int, x: Result<(), GroupBindError>|
                chunk_says(*keccak, *poseidon, claims, groups@, label, k, x)),
            off == covered(groups@, k as nat),
            off <= stmts@.len(),
            forall|j: int| 0 <= j < k ==> #[trigger] step(j, Ok(())),
        decreases groups.len() - k,
    {
        proof {
            reveal(chunks_say);
        }
        let n: usize = groups[k].path_count() as usize;
        if n > stmts.len() - off {
            let e = GroupBindError::Overflow(label, k);
            proof {
                lemma_turn_fails(groups@.len(), step, k as int, e);
            }
            return Err(e);
        }
        let end: usize = off + n;
        let chunk = vstd::slice::slice_subrange(stmts.as_slice(), off, end);
        proof {
            lemma_claims_subrange(stmts@, off as int, end as int);
        }
        let v: bool = verify_group(keccak, poseidon, chunk, &groups[k]);
        proof {
            assert(group_says(
                *keccak,
                *poseidon,
                claims.subrange(off as int, end as int),
                groups@[k as int],
                v,
            ));
        }
        if !v {
            let e = GroupBindError::Failed(label, k);
            proof {
                lemma_turn_fails(groups@.len(), step, k as int, e);
            }
            return Err(e);
        }
        proof {
            assert(step(k as int, Ok(())));
        }
        off = end;
        k += 1;
    }
    if off != stmts.len() {
        return Err(GroupBindError::Uncovered(label));
    }
    Ok(())
}

/// What a bundle is bound to.
pub struct BindInput {
    pub proof: StarkProofView,
    pub chal: AggFriChallenges,
    pub width: usize,
    pub bundle: AggFriMmcsBundle,
    pub groups: LeafMmcsFoldGroups,
}

impl BindInput {
    pub open spec fn query(self, q: int) -> RoInput {
        query_of(self.proof, self.chal, q)
    }

    pub open spec fn trace_root(self) -> Seq<u8> {
        self.proof.trace_commitment@[0]@
    }

    pub open spec fn quot_root(self) -> Seq<u8> {
        self.proof.quotient_commitment@[0]@
    }

    /// The trace path of query `q` by its digests.
    pub open spec fn trace_digests(self, q: int) -> bool {
        let p = self.bundle.val@[q];
        path_digests_valid(
            vals(self.query(q).trace_row()),
            p.trace_siblings@,
            trace_position(self.query(q)),
            self.trace_root(),
            p.trace_path,
        )
    }

    /// The first query whose trace path does not hold by its digests.
    pub open spec fn trace_digests_report(self) -> Option<GroupBindError> {
        first_some(
            self.bundle.val@.len(),
            |q: int|
                if self.trace_digests(q) {
                    None
                } else {
                    Some(GroupBindError::TraceDigests(q as usize))
                },
        )
    }

    /// A quotient batch by its digests.
    pub open spec fn batch_digests(self, q: int, b: FriChalBatchPathProof) -> bool {
        let ri = self.query(q);
        ri.quotient_height() <= 30 && quotient_batch(ri, b.siblings@).digests_valid(
            self.quot_root(),
            b,
        )
    }

    /// Where the trace path of an ungrouped query fails, if it does.
    pub open spec fn lone_trace_report(self, q: int) -> Option<GroupBindError> {
        let p = self.bundle.val@[q];
        if self.groups.val_trace@.len() > 0 {
            None
        } else if path_bare(p.trace_path) {
            if self.trace_digests(q) {
                None
            } else {
                Some(GroupBindError::TraceDigests(q as usize))
            }
        } else if path_record_valid(
            vals(self.query(q).trace_row()),
            p.trace_siblings@,
            trace_position(self.query(q)),
            self.trace_root(),
            p.trace_path,
        ) {
            None
        } else {
            Some(GroupBindError::Val(ValMmcsError::TraceCheck(q as usize)))
        }
    }

    /// Where the quotient batch of a query fails, if it does.
    pub open spec fn quot_batch_report(
        self,
        q: int,
        b: FriChalBatchPathProof,
        merged: bool,
    ) -> Option<GroupBindError> {
        let p = self.bundle.val@[q];
        if p.quot_index != quotient_position(self.query(q)) {
            Some(GroupBindError::Val(ValMmcsError::QuotientIndex(q as usize)))
        } else if self.groups.val_quot_batch@.len() > 0 || merged || batch_bare(b) {
            if self.batch_digests(q, b) {
                None
            } else {
                Some(GroupBindError::BatchDigests(q as usize))
            }
        } else if quotient_batch_valid(self.query(q), b) {
            None
        } else {
            Some(GroupBindError::Val(ValMmcsError::BatchCheck(q as usize)))
        }
    }

    /// Where the single quotient path of a query fails, if it does.
    pub open spec fn quot_path_report(self, q: int) -> Option<GroupBindError> {
        let p = self.bundle.val@[q];
        let ri = self.query(q);
        let row = vals(ri.chunk_row(0));
        if ri.input().input_openings@[1].opened_values@.len() == 0 {
            Some(GroupBindError::Val(ValMmcsError::EmptyQuotient(q as usize)))
        } else if self.groups.val_quot@.len() == 0 && p.quot_index != quotient_position(ri) {
            Some(GroupBindError::Val(ValMmcsError::QuotientIndex(q as usize)))
        } else if self.groups.val_quot@.len() > 0 || path_bare(p.quot_path) {
            if path_digests_valid(
                row,
                p.quot_siblings@,
                quotient_position(ri),
                self.quot_root(),
                p.quot_path,
            ) {
                None
            } else {
                Some(GroupBindError::QuotientDigests(q as usize))
            }
        } else if path_record_valid(
            row,
            p.quot_siblings@,
            quotient_position(ri),
            self.quot_root(),
            p.quot_path,
        ) {
            None
        } else {
            Some(GroupBindError::Val(ValMmcsError::QuotientCheck(q as usize)))
        }
    }

    /// Where the trace and quotient record of a query fails, if it does.
    pub open spec fn val_query_report(self, q: int, merged: bool) -> Option<GroupBindError> {
        let p = self.bundle.val@[q];
        let meta = val_meta_report(self.query(q), self.width, p);
        if meta is Some {
            Some(GroupBindError::Val(meta->0))
        } else if self.lone_trace_report(q) is Some {
            self.lone_trace_report(q)
        } else {
            match p.quot_batch {
                Some(b) => self.quot_batch_report(q, b, merged),
                None => self.quot_path_report(q),
            }
        }
    }

    /// The first trace and quotient record that fails.
    pub open spec fn val_queries_report(self, merged: bool) -> Option<GroupBindError> {
        first_some(self.bundle.val@.len(), |q: int| self.val_query_report(q, merged))
    }

    /// The joint quotient paths are covered together with the trace paths.
    pub open spec fn val_merged(self, s: LeafMmcsGroupStatements, combined: bool) -> bool {
        let g = self.groups;
        combined || (g.val_quot_batch@.len() == 0 && g.val_quot@.len() == 0 && g.val_trace@.len()
            > 0 && (s.val_quot_batch matches Some(b) && b@.len() > 0 && covered(
            g.val_trace@,
            g.val_trace@.len(),
        ) == s.val_trace@.len() + b@.len()))
    }

    /// What the groups of trace paths must cover.
    pub open spec fn trace_cover(self, s: LeafMmcsGroupStatements, combined: bool) -> Seq<PathClaim> {
        if self.val_merged(s, combined) && s.val_quot_batch is Some {
            claims_of(s.val_trace@) + claims_of(s.val_quot_batch->0@)
        } else {
            claims_of(s.val_trace@)
        }
    }
}

/// What checking the grouped trace paths may return.
#[verifier::opaque]
pub open spec fn trace_stage<
    K: Fn(&MmcsGroupPathAir, &[Val], &[u8]) -> bool,
    P: Fn(&[MmcsPathStatement], &PoseidonGroupFoldProof) -> bool,
>(
    keccak: K,
    poseidon: P,
    b: BindInput,
    s: LeafMmcsGroupStatements,
    combined: bool,
    r: Result<(), GroupBindError>,
) -> bool {
    if combined {
        checked(r, b.trace_digests_report())
    } else if b.groups.val_trace@.len() == 0 {
        r == Ok::<(), GroupBindError>(())
    } else {
        exists|x: Result<(), GroupBindError>| #[trigger]
            chunks_say(
                keccak,
                poseidon,
                b.trace_cover(s, combined),
                b.groups.val_trace@,
                GroupLabel::ValTrace,
                x,
            ) && (match x {
                Err(e) => r == Err::<(), GroupBindError>(e),
                Ok(_) => checked(r, b.trace_digests_report()),
            })
    }
}

/// What checking groups of optional statements may return.
#[verifier::opaque]
pub open spec fn optional_stage<
    K: Fn(&MmcsGroupPathAir, &[Val], &[u8]) -> bool,
    P: Fn(&[MmcsPathStatement], &PoseidonGroupFoldProof) -> bool,
>(
    keccak: K,
    poseidon: P,
    stmts: Option<Vec<MmcsPathStatement>>,
    groups: Seq<MmcsGroupFoldProof>,
    label: GroupLabel,
    r: Result<(), GroupBindError>,
) -> bool {
    if groups.len() == 0 {
        r == Ok::<(), GroupBindError>(())
    } else {
        match stmts {
            None => r == Err::<(), GroupBindError>(GroupBindError::Unavailable(label)),
            Some(v) => chunks_say(keccak, poseidon, claims_of(v@), groups, label, r),
        }
    }
}

/// What binding trace and quotient paths with groups may return.
#[verifier::opaque]
pub open spec fn val_group_stage<
    K: Fn(&MmcsGroupPathAir, &[Val], &[u8]) -> bool,
    P: Fn(&[MmcsPathStatement], &PoseidonGroupFoldProof) -> bool,
>(
    keccak: K,
    poseidon: P,
    b: BindInput,
    s: LeafMmcsGroupStatements,
    combined: bool,
    r: Result<(), GroupBindError>,
) -> bool {
    let g = b.groups;
    exists|t: Result<(), GroupBindError>| #[trigger]
        trace_stage(keccak, poseidon, b, s, combined, t) && (if t is Err {
            r == t
        } else {
            exists|u: Result<(), GroupBindError>| #[trigger]
                optional_stage(
                    keccak,
                    poseidon,
                    s.val_quot,
                    g.val_quot@,
                    GroupLabel::ValQuot,
                    u,
                ) && (if u is Err {
                    r == u
                } else {
                    exists|w: Result<(), GroupBindError>| #[trigger]
                        optional_stage(
                            keccak,
                            poseidon,
                            s.val_quot_batch,
                            g.val_quot_batch@,
                            GroupLabel::ValQuotBatch,
                            w,
                        ) && (if w is Err {
                            r == w
                        } else {
                            checked(r, b.val_queries_report(b.val_merged(s, combined)))
                        })
                })
        })
}

/// Compares the trace paths with the queries, by their digests.
fn check_trace_digests(
    proof: &StarkProofView,
    chal: &AggFriChallenges,
    geo: &ValGeometry,
    bundle: &Vec<FriValMmcsQueryProof>,
    Ghost(b): Ghost<BindInput>,
) -> (r: Result<(), GroupBindError>)
    requires
        b.proof == *proof,
        b.chal == *chal,
        b.bundle.val == *bundle,
        geo.of(*proof, *chal),
        bundle@.len() == proof.opening_proof.fri_proof.query_proofs@.len(),
        forall|q: int|
            0 <= q < bundle@.len() ==> crate::val_mmcs::trace_row_report(
                #[trigger] query_of(*proof, *chal, q),
                b.width,
            ) is None,
    ensures
        checked(r, b.trace_digests_report()),
{
    let ghost f = |q: int|
        if b.trace_digests(q) {
            None
        } else {
            Some(GroupBindError::TraceDigests(q as usize))
        };
    let mut q: usize = 0;
    while q < bundle.len()
        invariant
            q <= bundle.len(),
            b.proof == *proof,
            b.chal == *chal,
            b.bundle.val == *bundle,
            geo.of(*proof, *chal),
            bundle@.len() == proof.opening_proof.fri_proof.query_proofs@.len(),
            forall|q: int|
                0 <= q < bundle@.len() ==> crate::val_mmcs::trace_row_report(
                    #[trigger] query_of(*proof, *chal, q),
                    b.width,
                ) is None,
            f == (|q: int|
                if b.trace_digests(q) {
                    None
                } else {
                    Some(GroupBindError::TraceDigests(q as usize))
                }),
            first_some(q as nat, f) is None,
        decreases bundle.len() - q,
    {
        proof {
            assert(crate::val_mmcs::trace_row_report(
                query_of(*proof, *chal, q as int),
                b.width,
            ) is None);
            assert(first_some((q + 1) as nat, f) == f(q as int));
            if f(q as int) is Some {
                lemma_first_some_stops((q + 1) as nat, bundle@.len(), f);
            }
        }
        let p = &bundle[q];
        let opening = &proof.opening_proof.fri_proof.query_proofs[q].input_proof.input_openings[0];
        if !verify_fri_mmcs_path_digests(
            opening.opened_values[0].as_slice(),
            p.trace_siblings.as_slice(),
            shift_right(chal.query_indices[q], geo.trace_shift),
            &geo.trace_root,
            &p.trace_path,
        ) {
            return Err(GroupBindError::TraceDigests(q));
        }
        q += 1;
    }
    Ok(())
}

/// Compares the trace path of an ungrouped query.
fn check_lone_trace(
    row: &Vec<Val>,
    p: &FriValMmcsQueryProof,
    index: usize,
    root: &[u8; 32],
    q: usize,
    Ghost(b): Ghost<BindInput>,
) -> (r: Result<(), GroupBindError>)
    requires
        b.bundle.val@[q as int] == *p,
        row@ == b.query(q as int).trace_row(),
        index == trace_position(b.query(q as int)),
        root@ == b.trace_root(),
        b.groups.val_trace@.len() == 0,
    ensures
        checked(r, b.lone_trace_report(q as int)),
{
    if path_starks_stripped(&p.trace_path) {
        if !verify_fri_mmcs_path_digests(
            row.as_slice(),
            p.trace_siblings.as_slice(),
            index,
            root,
            &p.trace_path,
        ) {
            return Err(GroupBindError::TraceDigests(q));
        }
    } else if !verify_fri_mmcs_path_proof(
        row.as_slice(),
        p.trace_siblings.as_slice(),
        index,
        root,
        &p.trace_path,
    ) {
        return Err(GroupBindError::Val(ValMmcsError::TraceCheck(q)));
    }
    Ok(())
}

/// Compares the quotient paths of a query.
fn check_quotient(
    rows: &Vec<Vec<Val>>,
    p: &FriValMmcsQueryProof,
    geo: &ValGeometry,
    groups: &LeafMmcsFoldGroups,
    index: usize,
    q: usize,
    merged: bool,
    Ghost(b): Ghost<BindInput>,
) -> (r: Result<(), GroupBindError>)
    requires
        b.bundle.val@[q as int] == *p,
        b.groups == *groups,
        *rows == b.query(q as int).input().input_openings@[1].opened_values,
        index == quotient_position(b.query(q as int)),
        geo.of(b.proof, b.chal),
    ensures
        checked(
            r,
            match p.quot_batch {
                Some(x) => b.quot_batch_report(q as int, x, merged),
                None => b.quot_path_report(q as int),
            },
        ),
{
    proof {
        assert(crate::val_mmcs::quotient_dims(b.query(q as int))
            == crate::val_mmcs::quotient_dims(query_of(b.proof, b.chal, 0)));
    }
    match &p.quot_batch {
        Some(x) => {
            if p.quot_index as usize != index {
                return Err(GroupBindError::Val(ValMmcsError::QuotientIndex(q)));
            }
            if groups.val_quot_batch.len() > 0 || merged || batch_starks_stripped(x) {
                if !geo.has_dims || !verify_chal_batch_path_digests(
                    rows.as_slice(),
                    geo.dims.as_slice(),
                    index,
                    &geo.quot_root,
                    x,
                ) {
                    return Err(GroupBindError::BatchDigests(q));
                }
            } else if !geo.has_dims || !verify_chal_batch_path_replay(
                rows.as_slice(),
                geo.dims.as_slice(),
                index,
                &geo.quot_root,
                x,
            ) {
                return Err(GroupBindError::Val(ValMmcsError::BatchCheck(q)));
            }
        },
        None => {
            if rows.len() == 0 {
                return Err(GroupBindError::Val(ValMmcsError::EmptyQuotient(q)));
            }
            if groups.val_quot.len() == 0 && p.quot_index as usize != index {
                return Err(GroupBindError::Val(ValMmcsError::QuotientIndex(q)));
            }
            if groups.val_quot.len() > 0 || path_starks_stripped(&p.quot_path) {
                if !verify_fri_mmcs_path_digests(
                    rows[0].as_slice(),
                    p.quot_siblings.as_slice(),
                    index,
                    &geo.quot_root,
                    &p.quot_path,
                ) {
                    return Err(GroupBindError::QuotientDigests(q));
                }
            } else if !verify_fri_mmcs_path_proof(
                rows[0].as_slice(),
                p.quot_siblings.as_slice(),
                index,
                &geo.quot_root,
                &p.quot_path,
            ) {
                return Err(GroupBindError::Val(ValMmcsError::QuotientCheck(q)));
            }
        },
    }
    Ok(())
}

/// Compares the trace and quotient records with the queries.
fn check_val_queries(
    proof: &StarkProofView,
    chal: &AggFriChallenges,
    geo: &ValGeometry,
    bundle: &Vec<FriValMmcsQueryProof>,
    groups: &LeafMmcsFoldGroups,
    width: usize,
    merged: bool,
    Ghost(b): Ghost<BindInput>,
) -> (r: Result<(), GroupBindError>)
    requires
        b.proof == *proof,
        b.chal == *chal,
        b.bundle.val == *bundle,
        b.groups == *groups,
        b.width == width,
        geo.of(*proof, *chal),
        bundle@.len() == proof.opening_proof.fri_proof.query_proofs@.len(),
    ensures
        checked(r, b.val_queries_report(merged)),
{
    let ghost f = |q: int| b.val_query_report(q, merged);
    let mut q: usize = 0;
    while q < bundle.len()
        invariant
            q <= bundle.len(),
            b.proof == *proof,
            b.chal == *chal,
            b.bundle.val == *bundle,
            b.groups == *groups,
            b.width == width,
            geo.of(*proof, *chal),
            bundle@.len() == proof.opening_proof.fri_proof.query_proofs@.len(),
            f == (|q: int| b.val_query_report(q, merged)),
            first_some(q as nat, f) is None,
        decreases bundle.len() - q,
    {
        proof {
            assert(first_some((q + 1) as nat, f) == f(q as int));
            if f(q as int) is Some {
                lemma_first_some_stops((q + 1) as nat, bundle@.len(), f);
            }
        }
        let p = &bundle[q];
        if let Err(e) = check_val_meta(proof, chal, geo, q, width, p) {
            return Err(GroupBindError::Val(e));
        }
        let openings = &proof.opening_proof.fri_proof.query_proofs[q].input_proof.input_openings;
        let query_index: usize = chal.query_indices[q];
        if groups.val_trace.len() == 0 {
            if let Err(e) = check_lone_trace(
                &openings[0].opened_values[0],
                p,
                shift_right(query_index, geo.trace_shift),
                &geo.trace_root,
                q,
                Ghost(b),
            ) {
                return Err(e);
            }
        }
        if let Err(e) = check_quotient(
            &openings[1].opened_values,
            p,
            geo,
            groups,
            shift_right(query_index, geo.quot_shift),
            q,
            merged,
            Ghost(b),
        ) {
            return Err(e);
        }
        q += 1;
    }
    Ok(())
}

/// Number of paths that a list of groups covers, if it is a machine number.
fn count_covered(groups: &Vec<MmcsGroupFoldProof>) -> (r: u128)
    ensures
        r == covered(groups@, groups@.len()),
{
    let n: usize = groups.len();
    let mut total: u128 = 0;
    let mut k: usize = 0;
    while k < n
        invariant
            k <= n,
            n == groups@.len(),
            total == covered(groups@, k as nat),
            total <= k * u32::MAX,
        decreases n - k,
    {
        proof {
            assert(k * u32::MAX <= u64::MAX * u32::MAX) by (nonlinear_arith)
                requires
                    0 <= k <= u64::MAX,
            ;
            assert((k + 1) * u32::MAX == k * u32::MAX + u32::MAX) by (nonlinear_arith);
        }
        total = total + groups[k].path_count() as u128;
        k += 1;
    }
    total
}

/// Checks groups of optional statements.
fn verify_optional<
    K: Fn(&MmcsGroupPathAir, &[Val], &[u8]) -> bool,
    P: Fn(&[MmcsPathStatement], &PoseidonGroupFoldProof) -> bool,
>(
    keccak: &K,
    poseidon: &P,
    stmts: &Option<Vec<MmcsPathStatement>>,
    groups: &Vec<MmcsGroupFoldProof>,
    label: GroupLabel,
) -> (r: Result<(), GroupBindError>)
    requires
        verifier_ready::<MmcsGroupPathAir, K>(*keccak),
        poseidon_ready(*poseidon),
    ensures
        optional_stage(*keccak, *poseidon, *stmts, groups@, label, r),
{
    proof {
        reveal(optional_stage);
    }
    if groups.len() == 0 {
        return Ok(());
    }
    match stmts {
        None => Err(GroupBindError::Unavailable(label)),
        Some(v) => verify_group_chunks(keccak, poseidon, v, groups, label),
    }
}

/// Checks the grouped trace paths.
fn verify_trace_groups<
    K: Fn(&MmcsGroupPathAir, &[Val], &[u8]) -> bool,
    P: Fn(&[MmcsPathStatement], &PoseidonGroupFoldProof) -> bool,
>(
    keccak: &K,
    poseidon: &P,
    proof: &StarkProofView,
    chal: &AggFriChallenges,
    geo: &ValGeometry,
    bundle: &Vec<FriValMmcsQueryProof>,
    groups: &LeafMmcsFoldGroups,
    s: &LeafMmcsGroupStatements,
    combined: bool,
    merged: bool,
    Ghost(b): Ghost<BindInput>,
) -> (r: Result<(), GroupBindError>)
    requires
        verifier_ready::<MmcsGroupPathAir, K>(*keccak),
        poseidon_ready(*poseidon),
        b.proof == *proof,
        b.chal == *chal,
        b.bundle.val == *bundle,
        b.groups == *groups,
        geo.of(*proof, *chal),
        bundle@.len() == proof.opening_proof.fri_proof.query_proofs@.len(),
        forall|q: int|
            0 <= q < bundle@.len() ==> crate::val_mmcs::trace_row_report(
                #[trigger] query_of(*proof, *chal, q),
                b.width,
            ) is None,
        merged == b.val_merged(*s, combined),
    ensures
        trace_stage(*keccak, *poseidon, b, *s, combined, r),
{
    proof {
        reveal(trace_stage);
    }
    if combined {
        return check_trace_digests(proof, chal, geo, bundle, Ghost(b));
    }
    if groups.val_trace.len() == 0 {
        return Ok(());
    }
    let mut all: Vec<MmcsPathStatement> = Vec::new();
    append_statements(&mut all, s.val_trace.as_slice());
    if merged {
        if let Some(v) = &s.val_quot_batch {
            append_statements(&mut all, v.as_slice());
        }
    }
    proof {
        assert(claims_of(all@) =~= b.trace_cover(*s, combined));
    }
    let x = verify_group_chunks(
        keccak,
        poseidon,
        &all,
        &groups.val_trace,
        GroupLabel::ValTrace,
    );
    proof {
        assert(chunks_say(
            *keccak,
            *poseidon,
            b.trace_cover(*s, combined),
            b.groups.val_trace@,
            GroupLabel::ValTrace,
            x,
        ));
    }
    if let Err(e) = x {
        return Err(e);
    }
    check_trace_digests(proof, chal, geo, bundle, Ghost(b))
}

/// Binds trace and quotient paths with groups.
fn bind_val_with_groups<
    K: Fn(&MmcsGroupPathAir, &[Val], &[u8]) -> bool,
    P: Fn(&[MmcsPathStatement], &PoseidonGroupFoldProof) -> bool,
>(
    keccak: &K,
    poseidon: &P,
    proof: &StarkProofView,
    chal: &AggFriChallenges,
    geo: &ValGeometry,
    bundle: &Vec<FriValMmcsQueryProof>,
    groups: &LeafMmcsFoldGroups,
    s: &LeafMmcsGroupStatements,
    width: usize,
    combined: bool,
    Ghost(b): Ghost<BindInput>,
) -> (r: Result<(), GroupBindError>)
    requires
        verifier_ready::<MmcsGroupPathAir, K>(*keccak),
        poseidon_ready(*poseidon),
        b.proof == *proof,
        b.chal == *chal,
        b.bundle.val == *bundle,
        b.groups == *groups,
        b.width == width,
        geo.of(*proof, *chal),
        bundle@.len() == proof.opening_proof.fri_proof.query_proofs@.len(),
        forall|q: int|
            0 <= q < bundle@.len() ==> crate::val_mmcs::trace_row_report(
                #[trigger] query_of(*proof, *chal, q),
                b.width,
            ) is None,
    ensures
        val_group_stage(*keccak, *poseidon, b, *s, combined, r),
{
    proof {
        reveal(val_group_stage);
    }
    let batch_n: usize = match &s.val_quot_batch {
        Some(v) => v.len(),
        None => 0,
    };
    let merged: bool = combined || (groups.val_quot_batch.len() == 0 && groups.val_quot.len() == 0
        && groups.val_trace.len() > 0 && batch_n > 0 && count_covered(&groups.val_trace)
        == s.val_trace.len() as u128 + batch_n as u128);
    proof {
        assert(merged == b.val_merged(*s, combined));
    }
    let t = verify_trace_groups(
        keccak,
        poseidon,
        proof,
        chal,
        geo,
        bundle,
        groups,
        s,
        combined,
        merged,
        Ghost(b),
    );
    if t.is_err() {
        return t;
    }
    let u = verify_optional(keccak, poseidon, &s.val_quot, &groups.val_quot, GroupLabel::ValQuot);
    if u.is_err() {
        return u;
    }
    let w = verify_optional(
        keccak,
        poseidon,
        &s.val_quot_batch,
        &groups.val_quot_batch,
        GroupLabel::ValQuotBatch,
    );
    if w.is_err() {
        return w;
    }
    check_val_queries(proof, chal, geo, bundle, groups, width, merged, Ghost(b))
}

/// All commit-phase claims, shallowest first.
pub open spec fn flat_claims(entries: Seq<(usize, Vec<MmcsPathStatement>)>) -> Seq<PathClaim>
    decreases entries.len(),
{
    if entries.len() == 0 {
        Seq::empty()
    } else {
        flat_claims(entries.drop_last()) + claims_of(entries.last().1@)
    }
}

/// The claims of optional statements; none where they are missing.
pub open spec fn optional_claims(s: Option<Vec<MmcsPathStatement>>) -> Seq<PathClaim> {
    match s {
        Some(v) => claims_of(v@),
        None => Seq::empty(),
    }
}

/// First-layer claims, then commit-phase claims.
pub open spec fn chal_claims(s: LeafMmcsGroupStatements) -> Seq<PathClaim> {
    optional_claims(s.chal_first_layer) + flat_claims(s.chal_commit@)
}

/// Trace claims, then quotient claims.
pub open spec fn val_claims(s: LeafMmcsGroupStatements) -> Seq<PathClaim> {
    claims_of(s.val_trace@) + if s.val_quot_batch is Some {
        optional_claims(s.val_quot_batch)
    } else {
        optional_claims(s.val_quot)
    }
}

/// The trace groups cover every path of the proof.
pub open spec fn all_merged(g: LeafMmcsFoldGroups, s: LeafMmcsGroupStatements) -> bool {
    &&& chal_claims(s).len() > 0
    &&& val_claims(s).len() > 0
    &&& g.chal_commit@.len() == 0
    &&& g.chal_first_layer@.len() == 0
    &&& g.val_quot@.len() == 0
    &&& g.val_quot_batch@.len() == 0
    &&& g.val_trace@.len() > 0
    &&& covered(g.val_trace@, g.val_trace@.len()) == val_claims(s).len() + chal_claims(s).len()
}

/// The commit-phase groups cover the first layer too.
pub open spec fn chal_merged(
    g: LeafMmcsFoldGroups,
    s: LeafMmcsGroupStatements,
    combined: bool,
) -> bool {
    &&& !combined
    &&& g.chal_first_layer@.len() == 0
    &&& g.chal_commit@.len() > 0
    &&& covered(g.chal_commit@, g.chal_commit@.len()) == chal_claims(s).len()
}

/// What checking commit-phase groups depth by depth may return, from group `k` and statement
/// `off` of depth entry `i` on. No group spans two depths.
pub open spec fn commit_walk<
    K: Fn(&MmcsGroupPathAir, &[Val], &[u8]) -> bool,
    P: Fn(&[MmcsPathStatement], &PoseidonGroupFoldProof) -> bool,
>(
    keccak: K,
    poseidon: P,
    entries: Seq<(usize, Vec<MmcsPathStatement>)>,
    groups: Seq<MmcsGroupFoldProof>,
    k: nat,
    i: nat,
    off: int,
    r: Result<(), GroupBindError>,
) -> bool
    decreases entries.len() - i, groups.len() - k,
{
    if i >= entries.len() {
        r == (if k < groups.len() {
            Err::<(), GroupBindError>(GroupBindError::ExtraCommit)
        } else {
            Ok::<(), GroupBindError>(())
        })
    } else {
        let (depth, stmts) = entries[i as int];
        if off >= stmts@.len() {
            commit_walk(keccak, poseidon, entries, groups, k, i + 1, 0, r)
        } else if k >= groups.len() {
            r == Err::<(), GroupBindError>(GroupBindError::MissingCommit(depth))
        } else {
            let g = groups[k as int];
            let end = off + g.path_count_spec();
            if g.depth_spec() != depth {
                r == Err::<(), GroupBindError>(GroupBindError::CommitDepth(k as usize))
            } else if end > stmts@.len() {
                r == Err::<(), GroupBindError>(
                    GroupBindError::Overflow(GroupLabel::ChalCommit, k as usize),
                )
            } else {
                exists|v: bool| #[trigger]
                    group_says(
                        keccak,
                        poseidon,
                        claims_of(stmts@).subrange(off, end),
                        g,
                        v,
                    ) && (if v {
                        commit_walk(keccak, poseidon, entries, groups, k + 1, i, end, r)
                    } else {
                        r == Err::<(), GroupBindError>(
                            GroupBindError::Failed(GroupLabel::ChalCommit, k as usize),
                        )
                    })
            }
        }
    }
}

/// What checking the first-layer and commit-phase groups may return.
#[verifier::opaque]
pub open spec fn chal_groups_stage<
    K: Fn(&MmcsGroupPathAir, &[Val], &[u8]) -> bool,
    P: Fn(&[MmcsPathStatement], &PoseidonGroupFoldProof) -> bool,
>(
    keccak: K,
    poseidon: P,
    g: LeafMmcsFoldGroups,
    s: LeafMmcsGroupStatements,
    combined: bool,
    r: Result<(), GroupBindError>,
) -> bool {
    if combined {
        r == Ok::<(), GroupBindError>(())
    } else if chal_merged(g, s, combined) {
        chunks_say(
            keccak,
            poseidon,
            chal_claims(s),
            g.chal_commit@,
            GroupLabel::ChalMerged,
            r,
        )
    } else {
        exists|x: Result<(), GroupBindError>| #[trigger]
            optional_stage(
                keccak,
                poseidon,
                s.chal_first_layer,
                g.chal_first_layer@,
                GroupLabel::ChalFirstLayer,
                x,
            ) && (if x is Err {
                r == x
            } else if g.chal_commit@.len() == 0 {
                r == Ok::<(), GroupBindError>(())
            } else {
                commit_walk(keccak, poseidon, s.chal_commit@, g.chal_commit@, 0, 0, 0, r)
            })
    }
}

/// Whether the first layer of a record is checked by its digests.
pub open spec fn first_by_digests(
    g: LeafMmcsFoldGroups,
    s: LeafMmcsGroupStatements,
    combined: bool,
    p: FriChalMmcsQueryProof,
) -> bool {
    ||| g.chal_first_layer@.len() > 0
    ||| (combined || chal_merged(g, s, combined)) && optional_claims(s.chal_first_layer).len() > 0
    ||| batch_bare(p.first_layer)
}

/// Whether the path of a round is checked by its digests.
pub open spec fn round_by_digests(
    g: LeafMmcsFoldGroups,
    s: LeafMmcsGroupStatements,
    combined: bool,
    path: FriMmcsPathProof,
) -> bool {
    ||| combined
    ||| chal_merged(g, s, combined)
    ||| exists|i: int|
        0 <= i < g.chal_commit@.len() && (#[trigger] g.chal_commit@[i]).depth_spec() == path.depth
    ||| path_bare(path)
}

impl BindInput {
    /// Where the first-layer and commit-phase record of a query fails, if it does.
    pub open spec fn chal_query_report(
        self,
        s: LeafMmcsGroupStatements,
        combined: bool,
        q: int,
    ) -> Option<GroupBindError> {
        let p = self.bundle.chal@[q];
        let e = chal_bind_report(
            self.query(q),
            self.width,
            p,
            first_by_digests(self.groups, s, combined, p),
            Seq::new(
                p.commit_paths@.len(),
                |r: int| round_by_digests(self.groups, s, combined, p.commit_paths@[r]),
            ),
        );
        match e {
            Some(x) => Some(GroupBindError::Chal(x)),
            None => None,
        }
    }

    /// The first first-layer and commit-phase record that fails.
    pub open spec fn chal_queries_report(
        self,
        s: LeafMmcsGroupStatements,
        combined: bool,
    ) -> Option<GroupBindError> {
        first_some(self.bundle.chal@.len(), |q: int| self.chal_query_report(s, combined, q))
    }
}

/// What binding first-layer and commit-phase paths with groups may return.
#[verifier::opaque]
pub open spec fn chal_group_stage<
    K: Fn(&MmcsGroupPathAir, &[Val], &[u8]) -> bool,
    P: Fn(&[MmcsPathStatement], &PoseidonGroupFoldProof) -> bool,
>(
    keccak: K,
    poseidon: P,
    b: BindInput,
    s: LeafMmcsGroupStatements,
    combined: bool,
    r: Result<(), GroupBindError>,
) -> bool {
    exists|x: Result<(), GroupBindError>| #[trigger]
        chal_groups_stage(keccak, poseidon, b.groups, s, combined, x) && (if x is Err {
            r == x
        } else {
            checked(r, b.chal_queries_report(s, combined))
        })
}

/// All commit-phase statements, shallowest first.
fn flatten_entries(entries: &Vec<(usize, Vec<MmcsPathStatement>)>, out: &mut Vec<MmcsPathStatement>)
    ensures
        claims_of(final(out)@) == claims_of(old(out)@) + flat_claims(entries@),
{
    let ghost o0 = out@;
    let mut i: usize = 0;
    proof {
        assert(claims_of(out@) =~= claims_of(o0) + flat_claims(entries@.take(0)));
    }
    while i < entries.len()
        invariant
            i <= entries.len(),
            claims_of(out@) == claims_of(o0) + flat_claims(entries@.take(i as int)),
        decreases entries.len() - i,
    {
        proof {
            assert(entries@.take(i + 1).drop_last() =~= entries@.take(i as int));
        }
        append_statements(out, entries[i].1.as_slice());
        i += 1;
        proof {
            assert(claims_of(out@) =~= claims_of(o0) + flat_claims(entries@.take(i as int)));
        }
    }
    proof {
        assert(entries@.take(i as int) =~= entries@);
    }
}

/// Checks the commit-phase groups depth by depth.
fn verify_commit_groups<
    K: Fn(&MmcsGroupPathAir, &[Val], &[u8]) -> bool,
    P: Fn(&[MmcsPathStatement], &PoseidonGroupFoldProof) -> bool,
>(
    keccak: &K,
    poseidon: &P,
    entries: &Vec<(usize, Vec<MmcsPathStatement>)>,
    groups: &Vec<MmcsGroupFoldProof>,
) -> (r: Result<(), GroupBindError>)
    requires
        verifier_ready::<MmcsGroupPathAir, K>(*keccak),
        poseidon_ready(*poseidon),
    ensures
        commit_walk(*keccak, *poseidon, entries@, groups@, 0, 0, 0, r),
{
    let mut k: usize = 0;
    let mut i: usize = 0;
    let mut off: usize = 0;
    while i < entries.len()
        invariant
            i <= entries.len(),
            k <= groups.len(),
            verifier_ready::<MmcsGroupPathAir, K>(*keccak),
            poseidon_ready(*poseidon),
            i < entries.len() ==> off <= entries@[i as int].1@.len(),
            i == entries.len() ==> off == 0,
            forall|x: Result<(), GroupBindError>| #[trigger]
                commit_walk(
                    *keccak,
                    *poseidon,
                    entries@,
                    groups@,
                    k as nat,
                    i as nat,
                    off as int,
                    x,
                ) ==> commit_walk(*keccak, *poseidon, entries@, groups@, 0, 0, 0, x),
        decreases groups.len() - k + entries.len() - i,
    {
        let depth: usize = entries[i].0;
        let stmts: &Vec<MmcsPathStatement> = &entries[i].1;
        let ghost (k0, i0, off0) = (k as nat, i as nat, off as int);
        if off >= stmts.len() {
            i += 1;
            off = 0;
            proof {
                assert forall|x: Result<(), GroupBindError>| #[trigger]
                    commit_walk(
                        *keccak,
                        *poseidon,
                        entries@,
                        groups@,
                        k as nat,
                        i as nat,
                        off as int,
                        x,
                    ) implies commit_walk(*keccak, *poseidon, entries@, groups@, 0, 0, 0, x) by {
                    assert(commit_walk(*keccak, *poseidon, entries@, groups@, k0, i0, off0, x));
                }
            }
        } else {
            let ghost here = |x: Result<(), GroupBindError>|
                commit_walk(
                    *keccak,
                    *poseidon,
                    entries@,
                    groups@,
                    k as nat,
                    i as nat,
                    off as int,
                    x,
                );
            if k >= groups.len() {
                let x = Err(GroupBindError::MissingCommit(depth));
                proof {
                    assert(here(x));
                }
                return x;
            }
            let g = &groups[k];
            if g.depth() as usize != depth {
                let x = Err(GroupBindError::CommitDepth(k));
                proof {
                    assert(here(x));
                }
                return x;
            }
            let n: usize = g.path_count() as usize;
            if n > stmts.len() - off {
                let x = Err(GroupBindError::Overflow(GroupLabel::ChalCommit, k));
                proof {
                    assert(here(x));
                }
                return x;
            }
            let end: usize = off + n;
            let chunk = vstd::slice::slice_subrange(stmts.as_slice(), off, end);
            proof {
                lemma_claims_subrange(stmts@, off as int, end as int);
            }
            let v: bool = verify_group(keccak, poseidon, chunk, g);
            proof {
                assert(group_says(
                    *keccak,
                    *poseidon,
                    claims_of(stmts@).subrange(off as int, end as int),
                    *g,
                    v,
                ));
            }
            if !v {
                let x = Err(GroupBindError::Failed(GroupLabel::ChalCommit, k));
                proof {
                    assert(here(x));
                }
                return x;
            }
            k += 1;
            off = end;
            proof {
                assert forall|x: Result<(), GroupBindError>| #[trigger]
                    commit_walk(
                        *keccak,
                        *poseidon,
                        entries@,
                        groups@,
                        k as nat,
                        i as nat,
                        off as int,
                        x,
                    ) implies commit_walk(*keccak, *poseidon, entries@, groups@, 0, 0, 0, x) by {
                    assert(here(x));
                    assert(commit_walk(*keccak, *poseidon, entries@, groups@, k0, i0, off0, x));
                }
            }
        }
    }
    let x = if k < groups.len() {
        Err(GroupBindError::ExtraCommit)
    } else {
        Ok(())
    };
    proof {
        assert(commit_walk(
            *keccak,
            *poseidon,
            entries@,
            groups@,
            k as nat,
            i as nat,
            off as int,
            x,
        ));
    }
    x
}

/// How many statements there are of an optional kind.
fn optional_len(s: &Option<Vec<MmcsPathStatement>>) -> (r: usize)
    ensures
        r == optional_claims(*s).len(),
{
    match s {
        Some(v) => v.len(),
        None => 0,
    }
}

/// How many commit-phase statements there are.
fn entries_len(entries: &Vec<(usize, Vec<MmcsPathStatement>)>) -> (r: u128)
    ensures
        r == flat_claims(entries@).len(),
        r <= u64::MAX * u64::MAX,
{
    let mut total: u128 = 0;
    let mut i: usize = 0;
    while i < entries.len()
        invariant
            i <= entries.len(),
            total == flat_claims(entries@.take(i as int)).len(),
            total <= i * u64::MAX,
        decreases entries.len() - i,
    {
        proof {
            assert(entries@.take(i + 1).drop_last() =~= entries@.take(i as int));
            assert(i * u64::MAX <= u64::MAX * u64::MAX) by (nonlinear_arith)
                requires
                    0 <= i <= u64::MAX,
            ;
            assert((i + 1) * u64::MAX == i * u64::MAX + u64::MAX) by (nonlinear_arith);
        }
        total = total + entries[i].1.len() as u128;
        i += 1;
    }
    proof {
        assert(entries@.take(i as int) =~= entries@);
        assert(i * u64::MAX <= u64::MAX * u64::MAX) by (nonlinear_arith)
            requires
                0 <= i <= u64::MAX,
        ;
    }
    total
}

/// Checks the first-layer and commit-phase groups.
fn verify_chal_groups<
    K: Fn(&MmcsGroupPathAir, &[Val], &[u8]) -> bool,
    P: Fn(&[MmcsPathStatement], &PoseidonGroupFoldProof) -> bool,
>(
    keccak: &K,
    poseidon: &P,
    groups: &LeafMmcsFoldGroups,
    s: &LeafMmcsGroupStatements,
    combined: bool,
    merged: bool,
) -> (r: Result<(), GroupBindError>)
    requires
        verifier_ready::<MmcsGroupPathAir, K>(*keccak),
        poseidon_ready(*poseidon),
        merged == chal_merged(*groups, *s, combined),
    ensures
        chal_groups_stage(*keccak, *poseidon, *groups, *s, combined, r),
{
    proof {
        reveal(chal_groups_stage);
    }
    if combined {
        return Ok(());
    }
    if merged {
        let mut all: Vec<MmcsPathStatement> = Vec::new();
        if let Some(v) = &s.chal_first_layer {
            append_statements(&mut all, v.as_slice());
        }
        proof {
            assert(claims_of(all@) =~= optional_claims(s.chal_first_layer));
        }
        flatten_entries(&s.chal_commit, &mut all);
        return verify_group_chunks(
            keccak,
            poseidon,
            &all,
            &groups.chal_commit,
            GroupLabel::ChalMerged,
        );
    }
    let x = verify_optional(
        keccak,
        poseidon,
        &s.chal_first_layer,
        &groups.chal_first_layer,
        GroupLabel::ChalFirstLayer,
    );
    if x.is_err() {
        return x;
    }
    if groups.chal_commit.len() == 0 {
        return Ok(());
    }
    verify_commit_groups(keccak, poseidon, &s.chal_commit, &groups.chal_commit)
}

/// Which rounds of a record are checked by their digests.
fn rounds_by_digests(
    p: &FriChalMmcsQueryProof,
    groups: &LeafMmcsFoldGroups,
    grouped: bool,
    Ghost(s): Ghost<LeafMmcsGroupStatements>,
    Ghost(combined): Ghost<bool>,
) -> (r: Vec<bool>)
    requires
        grouped == (combined || chal_merged(*groups, s, combined)),
    ensures
        r@ == Seq::new(
            p.commit_paths@.len(),
            |i: int| round_by_digests(*groups, s, combined, p.commit_paths@[i]),
        ),
{
    let ghost want = Seq::new(
        p.commit_paths@.len(),
        |i: int| round_by_digests(*groups, s, combined, p.commit_paths@[i]),
    );
    let mut r: Vec<bool> = Vec::new();
    let mut i: usize = 0;
    while i < p.commit_paths.len()
        invariant
            i <= p.commit_paths.len(),
            grouped == (combined || chal_merged(*groups, s, combined)),
            want == Seq::new(
                p.commit_paths@.len(),
                |i: int| round_by_digests(*groups, s, combined, p.commit_paths@[i]),
            ),
            r@ == want.take(i as int),
        decreases p.commit_paths.len() - i,
    {
        let path = &p.commit_paths[i];
        r.push(
            grouped || some_depth(&groups.chal_commit, path.depth) || path_starks_stripped(path),
        );
        i += 1;
        proof {
            assert(r@ =~= want.take(i as int));
        }
    }
    proof {
        assert(r@ =~= want);
    }
    r
}

/// Compares the first-layer and commit-phase records with the queries.
fn check_chal_queries(
    proof: &StarkProofView,
    chal: &AggFriChallenges,
    bundle: &Vec<FriChalMmcsQueryProof>,
    groups: &LeafMmcsFoldGroups,
    s: &LeafMmcsGroupStatements,
    width: usize,
    combined: bool,
    grouped: bool,
    first_n: usize,
    Ghost(b): Ghost<BindInput>,
) -> (r: Result<(), GroupBindError>)
    requires
        b.proof == *proof,
        b.chal == *chal,
        b.bundle.chal == *bundle,
        b.groups == *groups,
        b.width == width,
        rounds_fit(proof.opening_proof, chal.log_blowup),
        bundle@.len() == proof.opening_proof.fri_proof.query_proofs@.len(),
        proof.opening_proof.first_layer_commitment@.len() > 0,
        first_n == optional_claims(s.chal_first_layer).len(),
        grouped == (combined || chal_merged(*groups, *s, combined)),
    ensures
        checked(r, b.chal_queries_report(*s, combined)),
{
    let ghost f = |q: int| b.chal_query_report(*s, combined, q);
    let mut q: usize = 0;
    while q < bundle.len()
        invariant
            q <= bundle.len(),
            b.proof == *proof,
            b.chal == *chal,
            b.bundle.chal == *bundle,
            b.groups == *groups,
            b.width == width,
            rounds_fit(proof.opening_proof, chal.log_blowup),
            bundle@.len() == proof.opening_proof.fri_proof.query_proofs@.len(),
            proof.opening_proof.first_layer_commitment@.len() > 0,
            first_n == optional_claims(s.chal_first_layer).len(),
            grouped == (combined || chal_merged(*groups, *s, combined)),
            f == (|q: int| b.chal_query_report(*s, combined, q)),
            first_some(q as nat, f) is None,
        decreases bundle.len() - q,
    {
        proof {
            assert(first_some((q + 1) as nat, f) == f(q as int));
            if f(q as int) is Some {
                lemma_first_some_stops((q + 1) as nat, bundle@.len(), f);
            }
        }
        let p = &bundle[q];
        let first: bool = groups.chal_first_layer.len() > 0 || (grouped && first_n > 0)
            || batch_starks_stripped(&p.first_layer);
        let rounds = rounds_by_digests(p, groups, grouped, Ghost(*s), Ghost(combined));
        if let Err(e) = check_chal_query(proof, chal, q, width, p, first, &rounds) {
            return Err(GroupBindError::Chal(e));
        }
        q += 1;
    }
    Ok(())
}

/// Binds first-layer and commit-phase paths with groups.
fn bind_chal_with_groups<
    K: Fn(&MmcsGroupPathAir, &[Val], &[u8]) -> bool,
    P: Fn(&[MmcsPathStatement], &PoseidonGroupFoldProof) -> bool,
>(
    keccak: &K,
    poseidon: &P,
    proof: &StarkProofView,
    chal: &AggFriChallenges,
    bundle: &Vec<FriChalMmcsQueryProof>,
    groups: &LeafMmcsFoldGroups,
    s: &LeafMmcsGroupStatements,
    width: usize,
    combined: bool,
    Ghost(b): Ghost<BindInput>,
) -> (r: Result<(), GroupBindError>)
    requires
        verifier_ready::<MmcsGroupPathAir, K>(*keccak),
        poseidon_ready(*poseidon),
        b.proof == *proof,
        b.chal == *chal,
        b.bundle.chal == *bundle,
        b.groups == *groups,
        b.width == width,
        rounds_fit(proof.opening_proof, chal.log_blowup),
        bundle@.len() == proof.opening_proof.fri_proof.query_proofs@.len(),
        proof.opening_proof.first_layer_commitment@.len() > 0,
    ensures
        chal_group_stage(*keccak, *poseidon, b, *s, combined, r),
{
    proof {
        reveal(chal_group_stage);
    }
    let first_n: usize = optional_len(&s.chal_first_layer);
    let merged: bool = !combined && groups.chal_first_layer.len() == 0 && groups.chal_commit.len()
        > 0 && count_covered(&groups.chal_commit) == first_n as u128 + entries_len(
        &s.chal_commit,
    );
    proof {
        assert(merged == chal_merged(*groups, *s, combined));
    }
    let x = verify_chal_groups(keccak, poseidon, groups, s, combined, merged);
    if x.is_err() {
        return x;
    }
    check_chal_queries(
        proof,
        chal,
        bundle,
        groups,
        s,
        width,
        combined,
        combined || merged,
        first_n,
        Ghost(b),
    )
}

/// Some trace or quotient path is grouped, or carries no proof bytes.
pub open spec fn val_custom(b: BindInput) -> bool {
    let g = b.groups;
    ||| g.val_trace@.len() > 0
    ||| g.val_quot@.len() > 0
    ||| g.val_quot_batch@.len() > 0
    ||| exists|q: int| 0 <= q < b.bundle.val@.len() && val_query_bare(#[trigger] b.bundle.val@[q])
}

/// Some path of a record carries no proof bytes.
pub open spec fn val_query_bare(p: FriValMmcsQueryProof) -> bool {
    ||| path_bare(p.trace_path)
    ||| path_bare(p.quot_path)
    ||| p.quot_batch matches Some(x) && batch_bare(x)
}

/// Some first-layer or commit-phase path is grouped, or carries no proof bytes.
pub open spec fn chal_custom(b: BindInput, combined: bool) -> bool {
    let g = b.groups;
    ||| combined
    ||| g.chal_first_layer@.len() > 0
    ||| g.chal_commit@.len() > 0
    ||| exists|q: int| 0 <= q < b.bundle.chal@.len() && chal_query_bare(#[trigger] b.bundle.chal@[q])
}

/// Some path of a record carries no proof bytes.
pub open spec fn chal_query_bare(p: FriChalMmcsQueryProof) -> bool {
    ||| batch_bare(p.first_layer)
    ||| exists|i: int| 0 <= i < p.commit_paths@.len() && path_bare(#[trigger] p.commit_paths@[i])
}

fn val_needs_custom(bundle: &Vec<FriValMmcsQueryProof>) -> (r: bool)
    ensures
        r == exists|q: int| 0 <= q < bundle@.len() && val_query_bare(#[trigger] bundle@[q]),
{
    let mut q: usize = 0;
    while q < bundle.len()
        invariant
            q <= bundle.len(),
            forall|j: int| 0 <= j < q ==> !val_query_bare(#[trigger] bundle@[j]),
        decreases bundle.len() - q,
    {
        let p = &bundle[q];
        let bare: bool = path_starks_stripped(&p.trace_path) || path_starks_stripped(&p.quot_path)
            || match &p.quot_batch {
            Some(x) => batch_starks_stripped(x),
            None => false,
        };
        if bare {
            proof {
                assert(val_query_bare(bundle@[q as int]));
            }
            return true;
        }
        proof {
            assert(!val_query_bare(bundle@[q as int]));
        }
        q += 1;
    }
    false
}

fn some_path_bare(paths: &Vec<FriMmcsPathProof>) -> (r: bool)
    ensures
        r == exists|i: int| 0 <= i < paths@.len() && path_bare(#[trigger] paths@[i]),
{
    let mut i: usize = 0;
    while i < paths.len()
        invariant
            i <= paths.len(),
            forall|j: int| 0 <= j < i ==> !path_bare(#[trigger] paths@[j]),
        decreases paths.len() - i,
    {
        if path_starks_stripped(&paths[i]) {
            proof {
                assert(path_bare(paths@[i as int]));
            }
            return true;
        }
        i += 1;
    }
    false
}

fn chal_needs_custom(bundle: &Vec<FriChalMmcsQueryProof>) -> (r: bool)
    ensures
        r == exists|q: int| 0 <= q < bundle@.len() && chal_query_bare(#[trigger] bundle@[q]),
{
    let mut q: usize = 0;
    while q < bundle.len()
        invariant
            q <= bundle.len(),
            forall|j: int| 0 <= j < q ==> !chal_query_bare(#[trigger] bundle@[j]),
        decreases bundle.len() - q,
    {
        if batch_starks_stripped(&bundle[q].first_layer) || some_path_bare(
            &bundle[q].commit_paths,
        ) {
            proof {
                assert(chal_query_bare(bundle@[q as int]));
            }
            return true;
        }
        proof {
            assert(!chal_query_bare(bundle@[q as int]));
        }
        q += 1;
    }
    false
}

/// What checking one group list for all paths may return.
pub open spec fn pcs_stage<
    K: Fn(&MmcsGroupPathAir, &[Val], &[u8]) -> bool,
    P: Fn(&[MmcsPathStatement], &PoseidonGroupFoldProof) -> bool,
>(
    keccak: K,
    poseidon: P,
    b: BindInput,
    s: LeafMmcsGroupStatements,
    combined: bool,
    r: Result<(), GroupBindError>,
) -> bool {
    if combined {
        chunks_say(
            keccak,
            poseidon,
            val_claims(s) + chal_claims(s),
            b.groups.val_trace@,
            GroupLabel::Pcs,
            r,
        )
    } else {
        r == Ok::<(), GroupBindError>(())
    }
}

/// What binding trace and quotient paths may return.
pub open spec fn val_stage<
    K: Fn(&MmcsGroupPathAir, &[Val], &[u8]) -> bool,
    P: Fn(&[MmcsPathStatement], &PoseidonGroupFoldProof) -> bool,
>(
    keccak: K,
    poseidon: P,
    b: BindInput,
    s: LeafMmcsGroupStatements,
    combined: bool,
    r: Result<(), GroupBindError>,
) -> bool {
    if val_custom(b) {
        val_group_stage(keccak, poseidon, b, s, combined, r)
    } else {
        match val_bundle_report(b.proof, b.chal, b.width, b.bundle.val@) {
            Some(e) => r == Err::<(), GroupBindError>(GroupBindError::Val(e)),
            None => r == Ok::<(), GroupBindError>(()),
        }
    }
}

/// What binding first-layer and commit-phase paths may return.
pub open spec fn chal_stage<
    K: Fn(&MmcsGroupPathAir, &[Val], &[u8]) -> bool,
    P: Fn(&[MmcsPathStatement], &PoseidonGroupFoldProof) -> bool,
>(
    keccak: K,
    poseidon: P,
    b: BindInput,
    s: LeafMmcsGroupStatements,
    combined: bool,
    r: Result<(), GroupBindError>,
) -> bool {
    if chal_custom(b, combined) {
        chal_group_stage(keccak, poseidon, b, s, combined, r)
    } else {
        match chal_bundle_report(b.proof, b.chal, b.width, b.bundle.chal@) {
            Some(e) => r == Err::<(), GroupBindError>(GroupBindError::Chal(e)),
            None => r == Ok::<(), GroupBindError>(()),
        }
    }
}

/// What binding a bundle with groups may return, given its statements.
pub open spec fn leaf_stages<
    K: Fn(&MmcsGroupPathAir, &[Val], &[u8]) -> bool,
    P: Fn(&[MmcsPathStatement], &PoseidonGroupFoldProof) -> bool,
>(
    keccak: K,
    poseidon: P,
    b: BindInput,
    s: LeafMmcsGroupStatements,
    combined: bool,
    r: Result<(), GroupBindError>,
) -> bool {
    exists|x: Result<(), GroupBindError>| #[trigger]
        pcs_stage(keccak, poseidon, b, s, combined, x) && (if x is Err {
            r == x
        } else {
            exists|y: Result<(), GroupBindError>| #[trigger]
                val_stage(keccak, poseidon, b, s, combined, y) && (if y is Err {
                    r == y
                } else {
                    chal_stage(keccak, poseidon, b, s, combined, r)
                })
        })
}

/// Why a bundle cannot be bound to a proof, if so.
pub open spec fn leaf_report(b: BindInput) -> Option<GroupBindError> {
    let n = b.proof.opening_proof.fri_proof.query_proofs@.len();
    let stated = statements_report(b.proof, b.chal, b.width, b.bundle);
    if b.bundle.val@.len() != n {
        Some(GroupBindError::Val(ValMmcsError::Length(b.bundle.val@.len() as usize)))
    } else if b.bundle.chal@.len() != n {
        Some(GroupBindError::Chal(ChalMmcsError::Length(b.bundle.chal@.len() as usize)))
    } else if val_shape_report(b.proof, b.chal) is Some {
        Some(GroupBindError::Val(val_shape_report(b.proof, b.chal)->0))
    } else if stated is Some {
        Some(GroupBindError::Statement(stated->0))
    } else {
        None
    }
}

/// What binding a bundle with groups to a proof may return, given the challenges.
pub open spec fn leaf_bind_outcome<
    K: Fn(&MmcsGroupPathAir, &[Val], &[u8]) -> bool,
    P: Fn(&[MmcsPathStatement], &PoseidonGroupFoldProof) -> bool,
>(keccak: K, poseidon: P, b: BindInput, r: Result<(), GroupBindError>) -> bool {
    match leaf_report(b) {
        Some(e) => r == Err::<(), GroupBindError>(e),
        None => exists|s: LeafMmcsGroupStatements| #[trigger]
            are_statements(s, b.proof, b.chal, b.width, b.bundle) && leaf_stages(
                keccak,
                poseidon,
                b,
                s,
                b.groups.pcs_combined || all_merged(b.groups, s),
                r,
            ),
    }
}

/// Whether the trace groups cover every path of the proof.
fn pcs_val_chal_merged(groups: &LeafMmcsFoldGroups, s: &LeafMmcsGroupStatements) -> (r: bool)
    ensures
        r == all_merged(*groups, *s),
{
    let quot_n: usize = if s.val_quot_batch.is_some() {
        optional_len(&s.val_quot_batch)
    } else {
        optional_len(&s.val_quot)
    };
    let val_n: u128 = s.val_trace.len() as u128 + quot_n as u128;
    let chal_n: u128 = optional_len(&s.chal_first_layer) as u128 + entries_len(&s.chal_commit);
    let all_n: u128 = count_covered(&groups.val_trace);
    chal_n > 0 && val_n > 0 && groups.chal_commit.len() == 0 && groups.chal_first_layer.len() == 0
        && groups.val_quot.len() == 0 && groups.val_quot_batch.len() == 0 && groups.val_trace.len()
        > 0 && all_n >= chal_n && all_n - chal_n == val_n
}

/// All statements: trace, quotient, first layer, commit phase.
fn all_statements(s: &LeafMmcsGroupStatements) -> (r: Vec<MmcsPathStatement>)
    ensures
        claims_of(r@) == val_claims(*s) + chal_claims(*s),
{
    let mut all: Vec<MmcsPathStatement> = Vec::new();
    append_statements(&mut all, s.val_trace.as_slice());
    proof {
        assert(claims_of(all@) =~= claims_of(s.val_trace@));
    }
    if let Some(v) = &s.val_quot_batch {
        append_statements(&mut all, v.as_slice());
    } else if let Some(v) = &s.val_quot {
        append_statements(&mut all, v.as_slice());
    }
    proof {
        assert(claims_of(all@) =~= val_claims(*s));
    }
    if let Some(v) = &s.chal_first_layer {
        append_statements(&mut all, v.as_slice());
    }
    proof {
        assert(claims_of(all@) =~= val_claims(*s) + optional_claims(s.chal_first_layer));
    }
    flatten_entries(&s.chal_commit, &mut all);
    proof {
        assert(claims_of(all@) =~= val_claims(*s) + chal_claims(*s));
    }
    all
}

/// Binds a bundle with groups to a proof, given its statements.
fn bind_statements<
    K: Fn(&MmcsGroupPathAir, &[Val], &[u8]) -> bool,
    P: Fn(&[MmcsPathStatement], &PoseidonGroupFoldProof) -> bool,
>(
    proof: &StarkProofView,
    chal: &AggFriChallenges,
    geo: &ValGeometry,
    bundle: &AggFriMmcsBundle,
    groups: &LeafMmcsFoldGroups,
    s: &LeafMmcsGroupStatements,
    trace_width: usize,
    combined: bool,
    keccak: &K,
    poseidon: &P,
    Ghost(b): Ghost<BindInput>,
) -> (r: Result<(), GroupBindError>)
    requires
        verifier_ready::<MmcsGroupPathAir, K>(*keccak),
        poseidon_ready(*poseidon),
        b == (BindInput {
            proof: *proof,
            chal: *chal,
            width: trace_width,
            bundle: *bundle,
            groups: *groups,
        }),
        rounds_fit(proof.opening_proof, chal.log_blowup),
        geo.of(*proof, *chal),
        bundle.val@.len() == proof.opening_proof.fri_proof.query_proofs@.len(),
        bundle.chal@.len() == proof.opening_proof.fri_proof.query_proofs@.len(),
        proof.opening_proof.first_layer_commitment@.len() > 0,
        forall|q: int|
            0 <= q < bundle.val@.len() ==> crate::val_mmcs::trace_row_report(
                #[trigger] query_of(*proof, *chal, q),
                trace_width,
            ) is None,
    ensures
        leaf_stages(*keccak, *poseidon, b, *s, combined, r),
{
    let x = if combined {
        let all = all_statements(s);
        verify_group_chunks(keccak, poseidon, &all, &groups.val_trace, GroupLabel::Pcs)
    } else {
        Ok(())
    };
    proof {
        assert(pcs_stage(*keccak, *poseidon, b, *s, combined, x));
    }
    if x.is_err() {
        return x;
    }
    let val_grouped: bool = groups.val_trace.len() > 0 || groups.val_quot.len() > 0
        || groups.val_quot_batch.len() > 0 || val_needs_custom(&bundle.val);
    let y = if val_grouped {
        bind_val_with_groups(
            keccak,
            poseidon,
            proof,
            chal,
            geo,
            &bundle.val,
            groups,
            s,
            trace_width,
            combined,
            Ghost(b),
        )
    } else {
        match bind_fri_val_mmcs_with_challenges(
            proof,
            chal,
            bundle.val.as_slice(),
            trace_width,
        ) {
            Ok(()) => Ok(()),
            Err(e) => Err(GroupBindError::Val(e)),
        }
    };
    proof {
        assert(val_stage(*keccak, *poseidon, b, *s, combined, y));
    }
    if y.is_err() {
        return y;
    }
    let chal_grouped: bool = combined || groups.chal_first_layer.len() > 0
        || groups.chal_commit.len() > 0 || chal_needs_custom(&bundle.chal);
    let z = if chal_grouped {
        bind_chal_with_groups(
            keccak,
            poseidon,
            proof,
            chal,
            &bundle.chal,
            groups,
            s,
            trace_width,
            combined,
            Ghost(b),
        )
    } else {
        match bind_fri_chal_mmcs_with_challenges(
            proof,
            chal,
            bundle.chal.as_slice(),
            trace_width,
        ) {
            Ok(()) => Ok(()),
            Err(e) => Err(GroupBindError::Chal(e)),
        }
    };
    proof {
        assert(chal_stage(*keccak, *poseidon, b, *s, combined, z));
    }
    z
}

/// Binds a bundle with groups to a proof, given the challenges.
pub fn bind_leaf_mmcs_with_challenges<
    K: Fn(&MmcsGroupPathAir, &[Val], &[u8]) -> bool,
    P: Fn(&[MmcsPathStatement], &PoseidonGroupFoldProof) -> bool,
>(
    proof: &StarkProofView,
    chal: &AggFriChallenges,
    bundle: &AggFriMmcsBundle,
    groups: &LeafMmcsFoldGroups,
    trace_width: usize,
    keccak: &K,
    poseidon: &P,
) -> (r: Result<(), GroupBindError>)
    requires
        verifier_ready::<MmcsGroupPathAir, K>(*keccak),
        poseidon_ready(*poseidon),
        rounds_fit(proof.opening_proof, chal.log_blowup),
    ensures
        leaf_bind_outcome(
            *keccak,
            *poseidon,
            (BindInput {
                proof: *proof,
                chal: *chal,
                width: trace_width,
                bundle: *bundle,
                groups: *groups,
            }),
            r,
        ),
{
    let ghost b = BindInput {
        proof: *proof,
        chal: *chal,
        width: trace_width,
        bundle: *bundle,
        groups: *groups,
    };
    let n: usize = proof.opening_proof.fri_proof.query_proofs.len();
    if bundle.val.len() != n {
        return Err(GroupBindError::Val(ValMmcsError::Length(bundle.val.len())));
    }
    if bundle.chal.len() != n {
        return Err(GroupBindError::Chal(ChalMmcsError::Length(bundle.chal.len())));
    }
    let geo = match val_geometry(proof, chal) {
        Ok(g) => g,
        Err(e) => {
            return Err(GroupBindError::Val(e));
        },
    };
    let s = match collect_statements(proof, chal, &geo, trace_width, bundle) {
        Ok(s) => s,
        Err(e) => {
            return Err(GroupBindError::Statement(e));
        },
    };
    proof {
        assert(are_statements(s, b.proof, b.chal, b.width, b.bundle));
        let f = |q: int|
            crate::mmcs_statements::trace_stmt_report(
                query_of(*proof, *chal, q),
                trace_width,
                bundle.val@[q],
            );
        assert forall|q: int| 0 <= q < bundle.val@.len() implies crate::val_mmcs::trace_row_report(
            #[trigger] query_of(*proof, *chal, q),
            trace_width,
        ) is None by {
            lemma_first_some_none(bundle.val@.len(), f, q);
            assert(f(q) is None);
        }
    }
    let combined: bool = groups.pcs_combined || pcs_val_chal_merged(groups, &s);
    bind_statements(
        proof,
        chal,
        &geo,
        bundle,
        groups,
        &s,
        trace_width,
        combined,
        keccak,
        poseidon,
        Ghost(b),
    )
}

/// What binding the paths of a bundle to a proof may return, where some kinds are proven in
/// groups.
pub open spec fn group_bind_outcome<
    K: Fn(&MmcsGroupPathAir, &[Val], &[u8]) -> bool,
    P: Fn(&[MmcsPathStatement], &PoseidonGroupFoldProof) -> bool,
>(
    keccak: K,
    poseidon: P,
    proof: StarkProofView,
    bundle: AggFriMmcsBundle,
    groups: LeafMmcsFoldGroups,
    width: usize,
    params: FriParamsView,
    r: Result<(), GroupBindError>,
) -> bool {
    match replay_report(proof, width, params) {
        Some(e) => r == Err::<(), GroupBindError>(GroupBindError::Val(ValMmcsError::Replay(e))),
        None => exists|chal: AggFriChallenges| #[trigger]
            is_replay(chal, proof, params) && leaf_bind_outcome(
                keccak,
                poseidon,
                (BindInput { proof, chal, width, bundle, groups }),
                r,
            ),
    }
}

/// Binds a bundle with groups to a proof: grouped paths through their groups, paths without
/// proof bytes by their digests, and the rest in full.
pub fn bind_leaf_mmcs_with_groups<
    K: Fn(&MmcsGroupPathAir, &[Val], &[u8]) -> bool,
    P: Fn(&[MmcsPathStatement], &PoseidonGroupFoldProof) -> bool,
>(
    proof: &StarkProofView,
    bundle: &AggFriMmcsBundle,
    groups: &LeafMmcsFoldGroups,
    trace_width: usize,
    params: &FriParamsView,
    keccak: &K,
    poseidon: &P,
) -> (r: Result<(), GroupBindError>)
    requires
        params_ok(*params),
        verifier_ready::<MmcsGroupPathAir, K>(*keccak),
        poseidon_ready(*poseidon),
        rounds_fit(proof.opening_proof, params.log_blowup),
    ensures
        group_bind_outcome(
            *keccak,
            *poseidon,
            *proof,
            *bundle,
            *groups,
            trace_width,
            *params,
            r,
        ),
{
    let chal = match replay_fri_challenges(proof, trace_width, params) {
        Ok(c) => c,
        Err(e) => {
            return Err(GroupBindError::Val(ValMmcsError::Replay(e)));
        },
    };
    proof {
        assert(is_replay(chal, *proof, *params));
    }
    bind_leaf_mmcs_with_challenges(proof, &chal, bundle, groups, trace_width, keccak, poseidon)
}

/// States the openings of a proof.
pub fn collect_leaf_mmcs_group_statements(
    proof: &StarkProofView,
    trace_width: usize,
    bundle: &AggFriMmcsBundle,
    params: &FriParamsView,
) -> (r: Result<LeafMmcsGroupStatements, GroupBindError>)
    requires
        params_ok(*params),
        rounds_fit(proof.opening_proof, params.log_blowup),
    ensures
        match replay_report(*proof, trace_width, *params) {
            Some(e) => r == Err::<LeafMmcsGroupStatements, GroupBindError>(
                GroupBindError::Val(ValMmcsError::Replay(e)),
            ),
            None => exists|chal: AggFriChallenges| #[trigger]
                is_replay(chal, *proof, *params) && collect_outcome(
                    *proof,
                    chal,
                    trace_width,
                    *bundle,
                    r,
                ),
        },
{
    let chal = match replay_fri_challenges(proof, trace_width, params) {
        Ok(c) => c,
        Err(e) => {
            return Err(GroupBindError::Val(ValMmcsError::Replay(e)));
        },
    };
    proof {
        assert(is_replay(chal, *proof, *params));
    }
    let n: usize = proof.opening_proof.fri_proof.query_proofs.len();
    if bundle.val.len() > n {
        return Err(GroupBindError::Val(ValMmcsError::Length(bundle.val.len())));
    }
    if bundle.chal.len() > n {
        return Err(GroupBindError::Chal(ChalMmcsError::Length(bundle.chal.len())));
    }
    let geo = match val_geometry(proof, &chal) {
        Ok(g) => g,
        Err(e) => {
            return Err(GroupBindError::Val(e));
        },
    };
    match collect_statements(proof, &chal, &geo, trace_width, bundle) {
        Ok(s) => Ok(s),
        Err(e) => Err(GroupBindError::Statement(e)),
    }
}

/// What stating the openings of a proof returns, given the challenges.
pub open spec fn collect_outcome(
    proof: StarkProofView,
    chal: AggFriChallenges,
    width: usize,
    bundle: AggFriMmcsBundle,
    r: Result<LeafMmcsGroupStatements, GroupBindError>,
) -> bool {
    let n = proof.opening_proof.fri_proof.query_proofs@.len();
    let report = if bundle.val@.len() > n {
        Some(GroupBindError::Val(ValMmcsError::Length(bundle.val@.len() as usize)))
    } else if bundle.chal@.len() > n {
        Some(GroupBindError::Chal(ChalMmcsError::Length(bundle.chal@.len() as usize)))
    } else if val_shape_report(proof, chal) is Some {
        Some(GroupBindError::Val(val_shape_report(proof, chal)->0))
    } else {
        match statements_report(proof, chal, width, bundle) {
            Some(e) => Some(GroupBindError::Statement(e)),
            None => None,
        }
    };
    match report {
        Some(e) => r == Err::<LeafMmcsGroupStatements, GroupBindError>(e),
        None => r matches Ok(s) && are_statements(s, proof, chal, width, bundle),
    }
}

} // verus!
