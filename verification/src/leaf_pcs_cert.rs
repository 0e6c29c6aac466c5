//! Certificates of the openings of a leaf proof.
//!
//! A certificate carries everything that was proven of a leaf proof's openings: its constraints
//! at the evaluation point, its folds, its reduced openings and its commitment paths. Making and
//! checking one is a list of steps; where a step is left to the surrounding proof system, the
//! contracts say what it is given and what follows from each answer.
use vstd::prelude::*;

use crate::chal_mmcs::rounds_fit;
use crate::checks::first_failing;
use crate::child_binding::sha3_256;
use crate::deep_ro_air::{
    deep_ro_verify_outcome, verify_deep_ro_proof, DeepRoAir, DeepRoStepProof,
};
use crate::deep_ro_leaf_trace_air::{
    leaf_verify_outcome, verify_deep_ro_leaf_trace_proof, DeepRoLeafTraceAir,
    DeepRoLeafTraceStepProof,
};
use crate::deep_ro_native::LEAF_DEEP_RO_MAX_WIDTH;
use crate::field::Val;
use crate::fri_fold_air::{
    fold_verify_outcome, verify_fri_fold_proof, verify_fri_fold_y_proof, FoldAxis, FriFoldAir,
    FriFoldStepProof,
};
use crate::fri_fold_bind::AggFriFoldBundle;
use crate::fri_fs_replay::params_ok;
use crate::fri_mmcs_bind::{AggFriMmcsBundle, MmcsError};
use crate::fri_mmcs_group_m4b::{MmcsGroupPathAir, MmcsPathStatement};
use crate::fri_mmcs_m4c::{
    bind_leaf_mmcs_with_groups, group_bind_outcome, poseidon_ready, GroupBindError,
};
use crate::fri_mmcs_path::FriMmcsPathProof;
use crate::keccak256_air::same_digest;
use crate::leaf_stmt::{
    chal_shape_ok, leaf_stmt_bytes, leaf_stmt_digest, path_self_check_chal, path_self_check_val,
    paths_equal, same_path, val_shape_ok, LeafKind, LeafRules,
};
use crate::mmcs_group_fold::PoseidonGroupFoldProof;
use crate::mmcs_strip::LeafMmcsFoldGroups;
use crate::pcs_view::{FriParamsView, StarkProofView};
use crate::proof_system::verifier_ready;

verus! {

/// The reduced-opening proofs of a leaf.
#[derive(Debug, Clone)]
pub struct LeafDeepBundle {
    pub deep_ros: Vec<DeepRoStepProof>,
    pub deep_ro_traces: Vec<DeepRoLeafTraceStepProof>,
}

/// The steps of a certificate that the surrounding proof system takes.
pub trait LeafSystem {
    /// A proof of the constraints at the evaluation point.
    type Ood;

    /// The number of outcomes of a distribution trace, if its width is one that is certified.
    fn outcomes(&self, width: usize) -> Option<usize>;

    /// Proves the constraints at the evaluation point.
    fn prove_ood(&self, proof: &StarkProofView, kind: LeafKind, outcomes: usize) -> Option<
        Self::Ood,
    >;

    /// Checks a proof of the constraints.
    fn ood_ok(&self, ood: &Self::Ood) -> bool;

    /// Checks that a proof of the constraints is about a leaf proof.
    fn ood_bound(&self, proof: &StarkProofView, ood: &Self::Ood, kind: LeafKind) -> bool;

    /// Proves the folds of every certified query.
    fn prove_folds(&self, proof: &StarkProofView, width: usize) -> Option<AggFriFoldBundle>;

    /// Checks that folds are those of a leaf proof.
    fn folds_bound(
        &self,
        proof: &StarkProofView,
        fold_ys: &Vec<FriFoldStepProof>,
        fold_xs: &Vec<FriFoldStepProof>,
        width: usize,
    ) -> bool;

    /// Proves the reduced openings of every certified query.
    fn prove_deep(&self, proof: &StarkProofView, width: usize) -> Option<LeafDeepBundle>;

    /// Checks that reduced openings are those of a leaf proof and lead to its folds.
    fn deep_bound(
        &self,
        proof: &StarkProofView,
        deep_ros: &Vec<DeepRoStepProof>,
        deep_ro_traces: &Vec<DeepRoLeafTraceStepProof>,
        fold_ys: &Vec<FriFoldStepProof>,
        width: usize,
    ) -> bool;

    /// Decodes a proof payload.
    fn decode(&self, payload: &[u8]) -> Option<StarkProofView>;
}

/// Everything certificates are made and checked with.
pub struct LeafContext<S, V, D, T, K, P> {
    pub system: S,
    /// Checks fold proofs.
    pub fold: V,
    /// Checks reduced quotient openings.
    pub deep: D,
    /// Checks reduced trace openings.
    pub trace: T,
    /// Checks Keccak path groups.
    pub keccak: K,
    /// Checks Poseidon path groups.
    pub poseidon: P,
    pub rules: LeafRules,
    pub params: FriParamsView,
}

/// A certificate of the openings of a leaf proof.
#[derive(Debug, Clone)]
pub struct LeafPcsCertificate<O> {
    pub kind: LeafKind,
    pub trace_width: u32,
    pub degree_bits: u32,
    pub stmt_digest: [u8; 32],
    pub trace_commitment: [u8; 32],
    /// Zero: no row of the extended trace is opened.
    pub lde_index: u32,
    /// Empty, as no row is opened.
    pub lde_row: Vec<Val>,
    /// Empty, as no row is opened.
    pub siblings: Vec<[u8; 32]>,
    /// The trace path of the first query.
    pub merkle_fold: FriMmcsPathProof,
    pub mmcs_groups: LeafMmcsFoldGroups,
    pub fri_fold_ys: Vec<FriFoldStepProof>,
    pub fri_folds: Vec<FriFoldStepProof>,
    pub deep_ros: Vec<DeepRoStepProof>,
    pub deep_ro_traces: Vec<DeepRoLeafTraceStepProof>,
    pub ood: O,
    /// The commitment paths of every certified query.
    pub fri_mmcs: AggFriMmcsBundle,
}

/// Why no certificate was made.
#[derive(Debug, Clone, PartialEq, Eq)]
pub enum LeafCertError {
    StmtDigest,
    Width,
    OodProve,
    OodCheck,
    FoldProve,
    FoldY(usize),
    FoldX(usize),
    DeepProve,
    DeepRo(usize),
    DeepRoTrace(usize),
    DeepBind,
    Mmcs(MmcsError),
    MmcsCounts(usize, usize),
    ValShape(usize),
    ValDepth(usize),
    ChalShape(usize),
    MmcsBind(MmcsError),
    GroupBind(GroupBindError),
    NoCommitment,
    /// The rounds of the proof cannot be counted.
    Rounds,
}

/// The fields of a certificate agree with a proof, and its lists are complete.
pub open spec fn cert_shape_ok<O>(
    rules: LeafRules,
    params: FriParamsView,
    proof: StarkProofView,
    cert: LeafPcsCertificate<O>,
) -> bool {
    let n = rules.proven_queries as int;
    &&& cert.stmt_digest@ == sha3_256(leaf_stmt_bytes(rules, cert.kind, proof))
    &&& cert.trace_width == proof.trace_local@.len()
    &&& cert.degree_bits == proof.degree_bits
    &&& proof.trace_commitment@.len() > 0
    &&& cert.trace_commitment == proof.trace_commitment@[0]
    &&& {
        ||| cert.deep_ros@.len() == n && cert.deep_ro_traces@.len() == n
        ||| cert.deep_ros@.len() == 0 && cert.deep_ro_traces@.len() == 0
            && proof.quotient_chunks@.len() > 1
    }
    &&& cert.fri_mmcs.val@.len() == n
    &&& cert.fri_mmcs.chal@.len() == n
    &&& forall|q: int| 0 <= q < n ==> val_shape_ok(#[trigger] cert.fri_mmcs.val@[q])
    &&& forall|q: int| 0 <= q < n ==> chal_shape_ok(#[trigger] cert.fri_mmcs.chal@[q])
    &&& same_path(cert.merkle_fold, cert.fri_mmcs.val@[0].trace_path)
    &&& rounds_fit(proof.opening_proof, params.log_blowup)
}

impl<
    S: LeafSystem,
    V: Fn(&FriFoldAir, &[Val], &[u8]) -> bool,
    D: Fn(&DeepRoAir, &[Val], &[u8]) -> bool,
    T: Fn(&DeepRoLeafTraceAir, &[Val], &[u8]) -> bool,
    K: Fn(&MmcsGroupPathAir, &[Val], &[u8]) -> bool,
    P: Fn(&[MmcsPathStatement], &PoseidonGroupFoldProof) -> bool,
> LeafContext<S, V, D, T, K, P> {
    /// The checks can be made, and at least one query is certified.
    pub open spec fn ready(self) -> bool {
        &&& verifier_ready::<FriFoldAir, V>(self.fold)
        &&& verifier_ready::<DeepRoAir, D>(self.deep)
        &&& verifier_ready::<DeepRoLeafTraceAir, T>(self.trace)
        &&& verifier_ready::<MmcsGroupPathAir, K>(self.keccak)
        &&& poseidon_ready(self.poseidon)
        &&& params_ok(self.params)
        &&& self.rules.proven_queries >= 1
    }

    /// A trace of this width may be certified as one of `o` outcomes, or not at all.
    pub open spec fn width_says(self, kind: LeafKind, width: usize, o: Option<usize>) -> bool {
        if width == 0 || width > LEAF_DEEP_RO_MAX_WIDTH {
            o is None
        } else {
            match kind {
                LeafKind::Unitary => o == if width == self.rules.unitary_width {
                    Some(0usize)
                } else {
                    None
                },
                LeafKind::Born => call_ensures(S::outcomes, (&self.system, width), o),
                LeafKind::TrajMarginal => call_ensures(S::outcomes, (&self.system, width), o),
                LeafKind::ShotSampling => o == Some(0usize),
            }
        }
    }

    /// The first fold that may fail its check.
    pub open spec fn folds_say(
        self,
        axis: FoldAxis,
        s: Seq<FriFoldStepProof>,
        f: Option<usize>,
    ) -> bool {
        first_failing(
            s.len(),
            |i: int, v: bool| fold_verify_outcome(self.fold, axis, s[i], v),
            f,
        )
    }

    /// The first reduced quotient opening that may fail its check.
    pub open spec fn ros_say(self, s: Seq<DeepRoStepProof>, f: Option<usize>) -> bool {
        first_failing(
            s.len(),
            |i: int, v: bool| deep_ro_verify_outcome(self.deep, s[i], v),
            f,
        )
    }

    /// The first reduced trace opening that may fail its check.
    pub open spec fn traces_say(self, s: Seq<DeepRoLeafTraceStepProof>, f: Option<usize>) -> bool {
        first_failing(
            s.len(),
            |i: int, v: bool| leaf_verify_outcome(self.trace, s[i], v),
            f,
        )
    }

    /// Whether the trace width may be certified.
    pub(crate) fn leaf_outcomes(&self, kind: LeafKind, width: usize) -> (o: Option<usize>)
        ensures
            self.width_says(kind, width, o),
    {
        if width == 0 || width > LEAF_DEEP_RO_MAX_WIDTH {
            return None;
        }
        match kind {
            LeafKind::Unitary => if width == self.rules.unitary_width {
                Some(0)
            } else {
                None
            },
            LeafKind::Born => self.system.outcomes(width),
            LeafKind::TrajMarginal => self.system.outcomes(width),
            LeafKind::ShotSampling => Some(0),
        }
    }

    pub(crate) fn failing_fold(&self, axis: FoldAxis, s: &Vec<FriFoldStepProof>) -> (f: Option<usize>)
        requires
            self.ready(),
        ensures
            self.folds_say(axis, s@, f),
    {
        let ghost says = |i: int, v: bool| fold_verify_outcome(self.fold, axis, s@[i], v);
        let mut i: usize = 0;
        while i < s.len()
            invariant
                i <= s.len(),
                self.ready(),
                says == (|i: int, v: bool| fold_verify_outcome(self.fold, axis, s@[i], v)),
                forall|k: int| 0 <= k < i ==> #[trigger] says(k, true),
            decreases s.len() - i,
        {
            let v: bool = match axis {
                FoldAxis::Y => verify_fri_fold_y_proof(&s[i], &self.fold),
                FoldAxis::X => verify_fri_fold_proof(&s[i], &self.fold),
            };
            proof {
                assert(says(i as int, v));
            }
            if !v {
                return Some(i);
            }
            i += 1;
        }
        None
    }

    pub(crate) fn failing_ro(&self, s: &Vec<DeepRoStepProof>) -> (f: Option<usize>)
        requires
            self.ready(),
        ensures
            self.ros_say(s@, f),
    {
        let ghost says = |i: int, v: bool| deep_ro_verify_outcome(self.deep, s@[i], v);
        let mut i: usize = 0;
        while i < s.len()
            invariant
                i <= s.len(),
                self.ready(),
                says == (|i: int, v: bool| deep_ro_verify_outcome(self.deep, s@[i], v)),
                forall|k: int| 0 <= k < i ==> #[trigger] says(k, true),
            decreases s.len() - i,
        {
            let v: bool = verify_deep_ro_proof(&s[i], &self.deep);
            proof {
                assert(says(i as int, v));
            }
            if !v {
                return Some(i);
            }
            i += 1;
        }
        None
    }

    pub(crate) fn failing_trace(&self, s: &Vec<DeepRoLeafTraceStepProof>) -> (f: Option<usize>)
        requires
            self.ready(),
        ensures
            self.traces_say(s@, f),
    {
        let ghost says = |i: int, v: bool| leaf_verify_outcome(self.trace, s@[i], v);
        let mut i: usize = 0;
        while i < s.len()
            invariant
                i <= s.len(),
                self.ready(),
                says == (|i: int, v: bool| leaf_verify_outcome(self.trace, s@[i], v)),
                forall|k: int| 0 <= k < i ==> #[trigger] says(k, true),
            decreases s.len() - i,
        {
            let v: bool = verify_deep_ro_leaf_trace_proof(&s[i], &self.trace);
            proof {
                assert(says(i as int, v));
            }
            if !v {
                return Some(i);
            }
            i += 1;
        }
        None
    }

    /// Whether a trace width may be certified.
    pub open spec fn width_ok_says(self, kind: LeafKind, width: usize, v: bool) -> bool {
        exists|o: Option<usize>| #[trigger] self.width_says(kind, width, o) && v == (o is Some)
    }

    /// What check `k` of a certificate whose shape is right may return.
    pub open spec fn check_says(
        self,
        proof: StarkProofView,
        cert: LeafPcsCertificate<S::Ood>,
        k: int,
        v: bool,
    ) -> bool {
        let width = proof.trace_local.len();
        if k == 0 {
            self.width_ok_says(cert.kind, width, v)
        } else if k == 1 {
            call_ensures(S::ood_ok, (&self.system, &cert.ood), v)
        } else if k == 2 {
            call_ensures(S::ood_bound, (&self.system, &proof, &cert.ood, cert.kind), v)
        } else if k == 3 {
            exists|f: Option<usize>| #[trigger]
                self.folds_say(FoldAxis::Y, cert.fri_fold_ys@, f) && v == (f is None)
        } else if k == 4 {
            exists|f: Option<usize>| #[trigger]
                self.folds_say(FoldAxis::X, cert.fri_folds@, f) && v == (f is None)
        } else if k == 5 {
            exists|f: Option<usize>| #[trigger]
                self.ros_say(cert.deep_ros@, f) && v == (f is None)
        } else if k == 6 {
            exists|f: Option<usize>| #[trigger]
                self.traces_say(cert.deep_ro_traces@, f) && v == (f is None)
        } else if k == 7 {
            call_ensures(
                S::folds_bound,
                (&self.system, &proof, &cert.fri_fold_ys, &cert.fri_folds, width),
                v,
            )
        } else if k == 8 {
            if cert.deep_ros@.len() == 0 {
                v
            } else {
                call_ensures(
                    S::deep_bound,
                    (
                        &self.system,
                        &proof,
                        &cert.deep_ros,
                        &cert.deep_ro_traces,
                        &cert.fri_fold_ys,
                        width,
                    ),
                    v,
                )
            }
        } else {
            exists|x: Result<(), GroupBindError>| #[trigger]
                group_bind_outcome(
                    self.keccak,
                    self.poseidon,
                    proof,
                    cert.fri_mmcs,
                    cert.mmcs_groups,
                    width,
                    self.params,
                    x,
                ) && v == (x is Ok)
        }
    }

    /// What checking a certificate may return: false where its shape is wrong, else whether no
    /// check fails, made one after the other.
    pub open spec fn verdict(
        self,
        proof: StarkProofView,
        cert: LeafPcsCertificate<S::Ood>,
        r: bool,
    ) -> bool {
        if !cert_shape_ok(self.rules, self.params, proof, cert) {
            !r
        } else {
            exists|f: Option<usize>| #[trigger]
                self.checks_say(proof, cert, f) && r == (f is None)
        }
    }

    /// The first check of a certificate that may fail.
    pub open spec fn checks_say(
        self,
        proof: StarkProofView,
        cert: LeafPcsCertificate<S::Ood>,
        f: Option<usize>,
    ) -> bool {
        first_failing(10, |k: int, v: bool| self.check_says(proof, cert, k, v), f)
    }

    fn check(&self, proof: &StarkProofView, cert: &LeafPcsCertificate<S::Ood>, k: usize) -> (v:
        bool)
        requires
            self.ready(),
            rounds_fit(proof.opening_proof, self.params.log_blowup),
            k < 10,
        ensures
            self.check_says(*proof, *cert, k as int, v),
    {
        let width: usize = proof.trace_local.len();
        if k == 0 {
            self.leaf_outcomes(cert.kind, width).is_some()
        } else if k == 1 {
            self.system.ood_ok(&cert.ood)
        } else if k == 2 {
            self.system.ood_bound(proof, &cert.ood, cert.kind)
        } else if k == 3 {
            self.failing_fold(FoldAxis::Y, &cert.fri_fold_ys).is_none()
        } else if k == 4 {
            self.failing_fold(FoldAxis::X, &cert.fri_folds).is_none()
        } else if k == 5 {
            self.failing_ro(&cert.deep_ros).is_none()
        } else if k == 6 {
            self.failing_trace(&cert.deep_ro_traces).is_none()
        } else if k == 7 {
            self.system.folds_bound(proof, &cert.fri_fold_ys, &cert.fri_folds, width)
        } else if k == 8 {
            if cert.deep_ros.len() == 0 {
                true
            } else {
                self.system.deep_bound(
                    proof,
                    &cert.deep_ros,
                    &cert.deep_ro_traces,
                    &cert.fri_fold_ys,
                    width,
                )
            }
        } else {
            bind_leaf_mmcs_with_groups(
                proof,
                &cert.fri_mmcs,
                &cert.mmcs_groups,
                width,
                &self.params,
                &self.keccak,
                &self.poseidon,
            ).is_ok()
        }
    }
}

/// Whether the rounds of a proof can be counted.
pub(crate) fn rounds_countable(proof: &StarkProofView, log_blowup: usize) -> (r: bool)
    ensures
        r == rounds_fit(proof.opening_proof, log_blowup),
{
    let fri = &proof.opening_proof.fri_proof;
    if log_blowup == usize::MAX || fri.commit_phase_commits.len() > usize::MAX - log_blowup - 1 {
        return false;
    }
    let mut q: usize = 0;
    while q < fri.query_proofs.len()
        invariant
            q <= fri.query_proofs.len(),
            *fri == proof.opening_proof.fri_proof,
            forall|j: int|
                0 <= j < q ==> (#[trigger] fri.query_proofs@[j]).commit_phase_openings@.len()
                    + log_blowup <= usize::MAX,
        decreases fri.query_proofs.len() - q,
    {
        if fri.query_proofs[q].commit_phase_openings.len() > usize::MAX - log_blowup {
            return false;
        }
        q += 1;
    }
    true
}

/// Whether every opening has its siblings.
fn openings_shaped(b: &AggFriMmcsBundle) -> (r: bool)
    ensures
        r == ((forall|q: int| 0 <= q < b.val@.len() ==> val_shape_ok(#[trigger] b.val@[q])) && (
        forall|q: int| 0 <= q < b.chal@.len() ==> chal_shape_ok(#[trigger] b.chal@[q]))),
{
    let mut q: usize = 0;
    while q < b.val.len()
        invariant
            q <= b.val.len(),
            forall|j: int| 0 <= j < q ==> val_shape_ok(#[trigger] b.val@[j]),
        decreases b.val.len() - q,
    {
        if !path_self_check_val(&b.val[q]) {
            return false;
        }
        q += 1;
    }
    let mut q: usize = 0;
    while q < b.chal.len()
        invariant
            q <= b.chal.len(),
            forall|j: int| 0 <= j < q ==> chal_shape_ok(#[trigger] b.chal@[j]),
        decreases b.chal.len() - q,
    {
        if !path_self_check_chal(&b.chal[q]) {
            return false;
        }
        q += 1;
    }
    true
}

/// Whether the fields of a certificate agree with a proof and its lists are complete.
fn cert_shaped<O>(
    rules: &LeafRules,
    params: &FriParamsView,
    proof: &StarkProofView,
    cert: &LeafPcsCertificate<O>,
) -> (r: bool)
    requires
        rules.proven_queries >= 1,
    ensures
        r == cert_shape_ok(*rules, *params, *proof, *cert),
{
    let n: usize = rules.proven_queries;
    if !same_digest(&leaf_stmt_digest(cert.kind, proof, rules), &cert.stmt_digest) {
        return false;
    }
    if cert.trace_width as usize != proof.trace_local.len() || cert.degree_bits as usize
        != proof.degree_bits {
        return false;
    }
    if proof.trace_commitment.len() == 0 || !same_digest(
        &proof.trace_commitment[0],
        &cert.trace_commitment,
    ) {
        return false;
    }
    let deep: bool = cert.deep_ros.len() == n && cert.deep_ro_traces.len() == n;
    let deferred: bool = cert.deep_ros.len() == 0 && cert.deep_ro_traces.len() == 0
        && proof.quotient_chunks.len() > 1;
    if !deep && !deferred {
        return false;
    }
    if cert.fri_mmcs.val.len() != n || cert.fri_mmcs.chal.len() != n {
        return false;
    }
    openings_shaped(&cert.fri_mmcs) && paths_equal(
        &cert.merkle_fold,
        &cert.fri_mmcs.val[0].trace_path,
    ) && rounds_countable(proof, params.log_blowup)
}

/// Checks a certificate against a leaf proof.
pub fn verify_leaf_pcs_certificate<
    S: LeafSystem,
    V: Fn(&FriFoldAir, &[Val], &[u8]) -> bool,
    D: Fn(&DeepRoAir, &[Val], &[u8]) -> bool,
    T: Fn(&DeepRoLeafTraceAir, &[Val], &[u8]) -> bool,
    K: Fn(&MmcsGroupPathAir, &[Val], &[u8]) -> bool,
    P: Fn(&[MmcsPathStatement], &PoseidonGroupFoldProof) -> bool,
>(
    proof: &StarkProofView,
    cert: &LeafPcsCertificate<S::Ood>,
    ctx: &LeafContext<S, V, D, T, K, P>,
) -> (r: bool)
    requires
        ctx.ready(),
    ensures
        ctx.verdict(*proof, *cert, r),
{
    if !cert_shaped(&ctx.rules, &ctx.params, proof, cert) {
        return false;
    }
    let ghost says = |k: int, v: bool| ctx.check_says(*proof, *cert, k, v);
    let mut k: usize = 0;
    while k < 10
        invariant
            k <= 10,
            ctx.ready(),
            cert_shape_ok(ctx.rules, ctx.params, *proof, *cert),
            says == (|k: int, v: bool| ctx.check_says(*proof, *cert, k, v)),
            forall|j: int| 0 <= j < k ==> #[trigger] says(j, true),
        decreases 10 - k,
    {
        let v: bool = ctx.check(proof, cert, k);
        proof {
            assert(says(k as int, v));
        }
        if !v {
            proof {
                assert(ctx.checks_say(*proof, *cert, Some(k)));
            }
            return false;
        }
        k += 1;
    }
    proof {
        assert(ctx.checks_say(*proof, *cert, None));
    }
    true
}

} // verus!
