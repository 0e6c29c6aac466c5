//! Making certificates of the openings of a leaf proof.
use vstd::prelude::*;

use crate::chal_mmcs::rounds_fit;
use crate::checks::{first_some, lemma_first_some_none, lemma_first_some_stops};
use crate::child_binding::sha3_256;
use crate::deep_ro_air::DeepRoAir;
use crate::deep_ro_leaf_trace_air::DeepRoLeafTraceAir;
use crate::field::Val;
use crate::fri_fold_air::{FoldAxis, FriFoldAir};
use crate::fri_fold_bind::AggFriFoldBundle;
use crate::fri_mmcs_bind::{
    bind_fri_mmcs_bundle_to_proof_width, fri_mmcs_bundle_from_proof, mmcs_bind_outcome,
    mmcs_bundle_outcome, AggFriMmcsBundle, MmcsError,
};
use crate::fri_mmcs_group_m4b::{MmcsGroupPathAir, MmcsPathStatement};
use crate::fri_mmcs_m4c::{bind_leaf_mmcs_with_groups, group_bind_outcome, GroupBindError};
use crate::keccak256_air::same_digest;
use crate::leaf_pcs_cert::{
    cert_shape_ok, rounds_countable, LeafCertError, LeafContext, LeafDeepBundle,
    LeafPcsCertificate, LeafSystem,
};
use crate::leaf_stmt::{
    chal_shape_ok, copy_path, leaf_stmt_bytes, leaf_stmt_digest, path_self_check_chal,
    path_self_check_val, same_path, val_shape_ok, LeafKind, LeafRules,
};
use crate::mmcs_group_fold::PoseidonGroupFoldProof;
use crate::mmcs_strip::{
    apply_leaf_mmcs_m4c_folds, bundle_stripped, ungrouped, LeafMmcsFoldGroups,
};
use crate::pcs_view::StarkProofView;
use crate::val_mmcs::FriValMmcsQueryProof;
use crate::chal_mmcs::FriChalMmcsQueryProof;

verus! {

/// What each value opening reports.
pub open spec fn val_reports(rules: LeafRules, s: Seq<FriValMmcsQueryProof>) -> spec_fn(
    int,
) -> Option<LeafCertError> {
    |q: int|
        if !val_shape_ok(s[q]) {
            Some(LeafCertError::ValShape(q as usize))
        } else if s[q].trace_siblings@.len() > rules.max_siblings || s[q].quot_siblings@.len()
            > rules.max_siblings {
            Some(LeafCertError::ValDepth(q as usize))
        } else {
            None
        }
}

/// What each folding opening reports.
pub open spec fn chal_reports(s: Seq<FriChalMmcsQueryProof>) -> spec_fn(int) -> Option<
    LeafCertError,
> {
    |q: int|
        if !chal_shape_ok(s[q]) {
            Some(LeafCertError::ChalShape(q as usize))
        } else {
            None
        }
}

/// Why the paths of a bundle cannot be certified, if so.
pub open spec fn mmcs_shape_report(rules: LeafRules, b: AggFriMmcsBundle) -> Option<
    LeafCertError,
> {
    if b.val@.len() != rules.proven_queries || b.chal@.len() != rules.proven_queries {
        Some(LeafCertError::MmcsCounts(b.val.len(), b.chal.len()))
    } else {
        match first_some(b.val@.len(), val_reports(rules, b.val@)) {
            Some(e) => Some(e),
            None => first_some(b.chal@.len(), chal_reports(b.chal@)),
        }
    }
}

/// The paths `b`, without nested proof bytes, are `c`, in no group.
pub open spec fn folded_as(b: AggFriMmcsBundle, c: AggFriMmcsBundle, g: LeafMmcsFoldGroups) -> bool {
    bundle_stripped(b, c) && ungrouped(g)
}

/// Why the paths of a bundle cannot be certified, if so.
fn mmcs_shape_fault(rules: &LeafRules, b: &AggFriMmcsBundle) -> (r: Option<LeafCertError>)
    ensures
        r == mmcs_shape_report(*rules, *b),
{
    if b.val.len() != rules.proven_queries || b.chal.len() != rules.proven_queries {
        return Some(LeafCertError::MmcsCounts(b.val.len(), b.chal.len()));
    }
    let ghost f = val_reports(*rules, b.val@);
    let mut q: usize = 0;
    while q < b.val.len()
        invariant
            q <= b.val.len(),
            f == val_reports(*rules, b.val@),
            b.val@.len() == rules.proven_queries && b.chal@.len() == rules.proven_queries,
            first_some(q as nat, f) is None,
        decreases b.val.len() - q,
    {
        proof {
            assert(first_some((q + 1) as nat, f) == f(q as int));
            if f(q as int) is Some {
                lemma_first_some_stops((q + 1) as nat, b.val@.len(), f);
            }
        }
        if !path_self_check_val(&b.val[q]) {
            return Some(LeafCertError::ValShape(q));
        }
        if b.val[q].trace_siblings.len() > rules.max_siblings || b.val[q].quot_siblings.len()
            > rules.max_siblings {
            return Some(LeafCertError::ValDepth(q));
        }
        q += 1;
    }
    let ghost g = chal_reports(b.chal@);
    let mut q: usize = 0;
    while q < b.chal.len()
        invariant
            q <= b.chal.len(),
            g == chal_reports(b.chal@),
            b.val@.len() == rules.proven_queries && b.chal@.len() == rules.proven_queries,
            first_some(b.val@.len(), val_reports(*rules, b.val@)) is None,
            first_some(q as nat, g) is None,
        decreases b.chal.len() - q,
    {
        proof {
            assert(first_some((q + 1) as nat, g) == g(q as int));
            if g(q as int) is Some {
                lemma_first_some_stops((q + 1) as nat, b.chal@.len(), g);
            }
        }
        if !path_self_check_chal(&b.chal[q]) {
            return Some(LeafCertError::ChalShape(q));
        }
        q += 1;
    }
    None
}

impl<
    S: LeafSystem,
    V: Fn(&FriFoldAir, &[Val], &[u8]) -> bool,
    D: Fn(&DeepRoAir, &[Val], &[u8]) -> bool,
    T: Fn(&DeepRoLeafTraceAir, &[Val], &[u8]) -> bool,
    K: Fn(&MmcsGroupPathAir, &[Val], &[u8]) -> bool,
    P: Fn(&[MmcsPathStatement], &PoseidonGroupFoldProof) -> bool,
> LeafContext<S, V, D, T, K, P> {
    /// What the check of a proof of the constraints leads to.
    pub open spec fn ood_says(self, ood: S::Ood, x: Result<S::Ood, LeafCertError>) -> bool {
        exists|v: bool| #[trigger]
            call_ensures(S::ood_ok, (&self.system, &ood), v) && x == (if v {
                Ok::<S::Ood, LeafCertError>(ood)
            } else {
                Err::<S::Ood, LeafCertError>(LeafCertError::OodCheck)
            })
    }

    /// What proving the constraints at the evaluation point may return.
    pub open spec fn head_says(
        self,
        proof: StarkProofView,
        kind: LeafKind,
        stmt: Seq<u8>,
        x: Result<S::Ood, LeafCertError>,
    ) -> bool {
        if stmt != sha3_256(leaf_stmt_bytes(self.rules, kind, proof)) {
            x == Err::<S::Ood, LeafCertError>(LeafCertError::StmtDigest)
        } else {
            exists|o: Option<usize>| #[trigger]
                self.width_says(kind, proof.trace_local.len(), o) && match o {
                    None => x == Err::<S::Ood, LeafCertError>(LeafCertError::Width),
                    Some(n) => exists|p: Option<S::Ood>| #[trigger]
                        call_ensures(S::prove_ood, (&self.system, &proof, kind, n), p) && match p {
                            None => x == Err::<S::Ood, LeafCertError>(LeafCertError::OodProve),
                            Some(q) => self.ood_says(q, x),
                        },
                }
        }
    }

    fn build_head(&self, proof: &StarkProofView, kind: LeafKind, stmt: &[u8; 32]) -> (x: Result<
        S::Ood,
        LeafCertError,
    >)
        requires
            self.ready(),
        ensures
            self.head_says(*proof, kind, stmt@, x),
    {
        if !same_digest(&leaf_stmt_digest(kind, proof, &self.rules), stmt) {
            return Err(LeafCertError::StmtDigest);
        }
        let o = self.leaf_outcomes(kind, proof.trace_local.len());
        let n: usize = match o {
            Some(n) => n,
            None => {
                return Err(LeafCertError::Width);
            },
        };
        let p = self.system.prove_ood(proof, kind, n);
        proof {
            assert(call_ensures(S::prove_ood, (&self.system, proof, kind, n), p));
        }
        match p {
            None => Err(LeafCertError::OodProve),
            Some(q) => {
                let v: bool = self.system.ood_ok(&q);
                proof {
                    assert(call_ensures(S::ood_ok, (&self.system, &q), v));
                }
                if v {
                    Ok(q)
                } else {
                    Err(LeafCertError::OodCheck)
                }
            },
        }
    }

    /// What the checks of folds lead to.
    pub open spec fn fold_checks_say(
        self,
        b: AggFriFoldBundle,
        x: Result<AggFriFoldBundle, LeafCertError>,
    ) -> bool {
        exists|f: Option<usize>| #[trigger]
            self.folds_say(FoldAxis::Y, b.fold_ys@, f) && match f {
                Some(i) => x == Err::<AggFriFoldBundle, LeafCertError>(LeafCertError::FoldY(i)),
                None => exists|g: Option<usize>| #[trigger]
                    self.folds_say(FoldAxis::X, b.fold_xs@, g) && match g {
                        Some(i) => x == Err::<AggFriFoldBundle, LeafCertError>(
                            LeafCertError::FoldX(i),
                        ),
                        None => x == Ok::<AggFriFoldBundle, LeafCertError>(b),
                    },
            }
    }

    /// What proving the folds may return.
    pub open spec fn folds_built(
        self,
        proof: StarkProofView,
        x: Result<AggFriFoldBundle, LeafCertError>,
    ) -> bool {
        exists|p: Option<AggFriFoldBundle>| #[trigger]
            call_ensures(S::prove_folds, (&self.system, &proof, proof.trace_local.len()), p)
                && match p {
                None => x == Err::<AggFriFoldBundle, LeafCertError>(LeafCertError::FoldProve),
                Some(b) => self.fold_checks_say(b, x),
            }
    }

    fn build_folds(&self, proof: &StarkProofView) -> (x: Result<AggFriFoldBundle, LeafCertError>)
        requires
            self.ready(),
        ensures
            self.folds_built(*proof, x),
    {
        let width: usize = proof.trace_local.len();
        let p = self.system.prove_folds(proof, width);
        proof {
            assert(call_ensures(S::prove_folds, (&self.system, proof, width), p));
        }
        let b = match p {
            Some(b) => b,
            None => {
                return Err(LeafCertError::FoldProve);
            },
        };
        let f = self.failing_fold(FoldAxis::Y, &b.fold_ys);
        if let Some(i) = f {
            return Err(LeafCertError::FoldY(i));
        }
        let g = self.failing_fold(FoldAxis::X, &b.fold_xs);
        if let Some(i) = g {
            return Err(LeafCertError::FoldX(i));
        }
        Ok(b)
    }

    /// What binding reduced openings leads to.
    pub open spec fn deep_bind_says(
        self,
        proof: StarkProofView,
        folds: AggFriFoldBundle,
        d: LeafDeepBundle,
        x: Result<LeafDeepBundle, LeafCertError>,
    ) -> bool {
        exists|v: bool| #[trigger]
            call_ensures(
                S::deep_bound,
                (
                    &self.system,
                    &proof,
                    &d.deep_ros,
                    &d.deep_ro_traces,
                    &folds.fold_ys,
                    proof.trace_local.len(),
                ),
                v,
            ) && x == (if v {
                Ok::<LeafDeepBundle, LeafCertError>(d)
            } else {
                Err::<LeafDeepBundle, LeafCertError>(LeafCertError::DeepBind)
            })
    }

    /// What the checks of reduced openings lead to.
    pub open spec fn deep_checks_say(
        self,
        proof: StarkProofView,
        folds: AggFriFoldBundle,
        d: LeafDeepBundle,
        x: Result<LeafDeepBundle, LeafCertError>,
    ) -> bool {
        exists|f: Option<usize>| #[trigger]
            self.ros_say(d.deep_ros@, f) && match f {
                Some(i) => x == Err::<LeafDeepBundle, LeafCertError>(LeafCertError::DeepRo(i)),
                None => exists|g: Option<usize>| #[trigger]
                    self.traces_say(d.deep_ro_traces@, g) && match g {
                        Some(i) => x == Err::<LeafDeepBundle, LeafCertError>(
                            LeafCertError::DeepRoTrace(i),
                        ),
                        None => self.deep_bind_says(proof, folds, d, x),
                    },
            }
    }

    /// What proving the reduced openings may return. Where there are several quotient chunks
    /// none are proven.
    pub open spec fn deep_built(
        self,
        proof: StarkProofView,
        folds: AggFriFoldBundle,
        x: Result<LeafDeepBundle, LeafCertError>,
    ) -> bool {
        if proof.quotient_chunks@.len() != 1 {
            x matches Ok(d) && d.deep_ros@.len() == 0 && d.deep_ro_traces@.len() == 0
        } else {
            exists|p: Option<LeafDeepBundle>| #[trigger]
                call_ensures(S::prove_deep, (&self.system, &proof, proof.trace_local.len()), p)
                    && match p {
                    None => x == Err::<LeafDeepBundle, LeafCertError>(LeafCertError::DeepProve),
                    Some(d) => self.deep_checks_say(proof, folds, d, x),
                }
        }
    }

    fn build_deep(&self, proof: &StarkProofView, folds: &AggFriFoldBundle) -> (x: Result<
        LeafDeepBundle,
        LeafCertError,
    >)
        requires
            self.ready(),
        ensures
            self.deep_built(*proof, *folds, x),
    {
        if proof.quotient_chunks.len() != 1 {
            return Ok(LeafDeepBundle { deep_ros: Vec::new(), deep_ro_traces: Vec::new() });
        }
        let width: usize = proof.trace_local.len();
        let p = self.system.prove_deep(proof, width);
        proof {
            assert(call_ensures(S::prove_deep, (&self.system, proof, width), p));
        }
        let d = match p {
            Some(d) => d,
            None => {
                return Err(LeafCertError::DeepProve);
            },
        };
        let f = self.failing_ro(&d.deep_ros);
        if let Some(i) = f {
            return Err(LeafCertError::DeepRo(i));
        }
        let g = self.failing_trace(&d.deep_ro_traces);
        if let Some(i) = g {
            return Err(LeafCertError::DeepRoTrace(i));
        }
        let v: bool = self.system.deep_bound(
            proof,
            &d.deep_ros,
            &d.deep_ro_traces,
            &folds.fold_ys,
            width,
        );
        proof {
            assert(call_ensures(
                S::deep_bound,
                (&self.system, proof, &d.deep_ros, &d.deep_ro_traces, &folds.fold_ys, width),
                v,
            ));
        }
        if v {
            Ok(d)
        } else {
            Err(LeafCertError::DeepBind)
        }
    }

    /// What binding the folded paths leads to.
    pub open spec fn folded_says(
        self,
        proof: StarkProofView,
        c: AggFriMmcsBundle,
        g: LeafMmcsFoldGroups,
        x: Result<(AggFriMmcsBundle, LeafMmcsFoldGroups), LeafCertError>,
    ) -> bool {
        exists|z: Result<(), GroupBindError>| #[trigger]
            group_bind_outcome(
                self.keccak,
                self.poseidon,
                proof,
                c,
                g,
                proof.trace_local.len(),
                self.params,
                z,
            ) && match z {
                Err(e) => x == Err::<(AggFriMmcsBundle, LeafMmcsFoldGroups), LeafCertError>(
                    LeafCertError::GroupBind(e),
                ),
                Ok(_) => x == Ok::<(AggFriMmcsBundle, LeafMmcsFoldGroups), LeafCertError>((c, g)),
            }
    }

    /// What binding and folding the paths of a bundle leads to.
    pub open spec fn bundle_says(
        self,
        proof: StarkProofView,
        b: AggFriMmcsBundle,
        x: Result<(AggFriMmcsBundle, LeafMmcsFoldGroups), LeafCertError>,
    ) -> bool {
        match mmcs_shape_report(self.rules, b) {
            Some(e) => x == Err::<(AggFriMmcsBundle, LeafMmcsFoldGroups), LeafCertError>(e),
            None => exists|y: Result<(), MmcsError>| #[trigger]
                mmcs_bind_outcome(proof, proof.trace_local.len(), self.params, b, y) && match y {
                    Err(e) => x == Err::<(AggFriMmcsBundle, LeafMmcsFoldGroups), LeafCertError>(
                        LeafCertError::MmcsBind(e),
                    ),
                    Ok(_) => exists|c: AggFriMmcsBundle, g: LeafMmcsFoldGroups| #[trigger]
                        folded_as(b, c, g) && self.folded_says(proof, c, g, x),
                },
        }
    }

    /// What recording the commitment paths may return.
    pub open spec fn mmcs_built(
        self,
        proof: StarkProofView,
        x: Result<(AggFriMmcsBundle, LeafMmcsFoldGroups), LeafCertError>,
    ) -> bool {
        if !rounds_fit(proof.opening_proof, self.params.log_blowup) {
            x == Err::<(AggFriMmcsBundle, LeafMmcsFoldGroups), LeafCertError>(
                LeafCertError::Rounds,
            )
        } else {
            exists|m: Result<AggFriMmcsBundle, MmcsError>| #[trigger]
                mmcs_bundle_outcome(proof, proof.trace_local.len(), self.params, m) && match m {
                    Err(e) => x == Err::<(AggFriMmcsBundle, LeafMmcsFoldGroups), LeafCertError>(
                        LeafCertError::Mmcs(e),
                    ),
                    Ok(b) => self.bundle_says(proof, b, x),
                }
        }
    }

    fn build_mmcs(&self, proof: &StarkProofView) -> (x: Result<
        (AggFriMmcsBundle, LeafMmcsFoldGroups),
        LeafCertError,
    >)
        requires
            self.ready(),
        ensures
            self.mmcs_built(*proof, x),
    {
        if !rounds_countable(proof, self.params.log_blowup) {
            return Err(LeafCertError::Rounds);
        }
        let width: usize = proof.trace_local.len();
        let m = fri_mmcs_bundle_from_proof(proof, width, &self.params);
        let mut bundle = match m {
            Ok(b) => b,
            Err(e) => {
                return Err(LeafCertError::Mmcs(e));
            },
        };
        if let Some(e) = mmcs_shape_fault(&self.rules, &bundle) {
            return Err(e);
        }
        let y = bind_fri_mmcs_bundle_to_proof_width(proof, &bundle, width, &self.params);
        if let Err(e) = y {
            return Err(LeafCertError::MmcsBind(e));
        }
        let ghost b = bundle;
        let groups = apply_leaf_mmcs_m4c_folds(&mut bundle);
        proof {
            assert(folded_as(b, bundle, groups));
        }
        let z = bind_leaf_mmcs_with_groups(
            proof,
            &bundle,
            &groups,
            width,
            &self.params,
            &self.keccak,
            &self.poseidon,
        );
        match z {
            Err(e) => Err(LeafCertError::GroupBind(e)),
            Ok(_) => Ok((bundle, groups)),
        }
    }

    /// The parts of a certificate are what its steps returned.
    pub open spec fn is_certificate(
        self,
        proof: StarkProofView,
        kind: LeafKind,
        stmt: [u8; 32],
        c: LeafPcsCertificate<S::Ood>,
    ) -> bool {
        let folds = AggFriFoldBundle { fold_ys: c.fri_fold_ys, fold_xs: c.fri_folds };
        let deep = LeafDeepBundle { deep_ros: c.deep_ros, deep_ro_traces: c.deep_ro_traces };
        &&& self.head_says(proof, kind, stmt@, Ok(c.ood))
        &&& self.folds_built(proof, Ok(folds))
        &&& self.deep_built(proof, folds, Ok(deep))
        &&& self.mmcs_built(proof, Ok((c.fri_mmcs, c.mmcs_groups)))
        &&& proof.trace_commitment@.len() > 0
        &&& c.kind == kind
        &&& c.trace_width == proof.trace_local.len() as u32
        &&& c.degree_bits == proof.degree_bits as u32
        &&& c.stmt_digest == stmt
        &&& c.trace_commitment == proof.trace_commitment@[0]
        &&& c.lde_index == 0
        &&& c.lde_row@.len() == 0
        &&& c.siblings@.len() == 0
        &&& same_path(c.merkle_fold, c.fri_mmcs.val@[0].trace_path)
    }

    /// The last steps may fail so.
    pub open spec fn tail_fails(self, proof: StarkProofView, e: LeafCertError) -> bool {
        ||| self.mmcs_built(proof, Err(e))
        ||| e == LeafCertError::NoCommitment && proof.trace_commitment@.len() == 0 && exists|
            m: (AggFriMmcsBundle, LeafMmcsFoldGroups),
        | #[trigger]
            self.mmcs_built(proof, Ok(m))
    }

    /// The steps after the folds may fail so.
    pub open spec fn deep_fails(
        self,
        proof: StarkProofView,
        folds: AggFriFoldBundle,
        e: LeafCertError,
    ) -> bool {
        ||| self.deep_built(proof, folds, Err(e))
        ||| self.tail_fails(proof, e) && exists|d: LeafDeepBundle| #[trigger]
            self.deep_built(proof, folds, Ok(d))
    }

    /// The steps after the proof of the constraints may fail so.
    pub open spec fn folds_fail(self, proof: StarkProofView, e: LeafCertError) -> bool {
        ||| self.folds_built(proof, Err(e))
        ||| exists|f: AggFriFoldBundle| #[trigger]
            self.folds_built(proof, Ok(f)) && self.deep_fails(proof, f, e)
    }

    /// What making a certificate may return: the parts its steps returned, or the failure of the
    /// first step that failed.
    #[verifier::opaque]
    pub open spec fn built(
        self,
        proof: StarkProofView,
        kind: LeafKind,
        stmt: [u8; 32],
        r: Result<LeafPcsCertificate<S::Ood>, LeafCertError>,
    ) -> bool {
        match r {
            Ok(c) => self.is_certificate(proof, kind, stmt, c),
            Err(e) => {
                ||| self.head_says(proof, kind, stmt@, Err(e))
                ||| self.folds_fail(proof, e) && exists|o: S::Ood| #[trigger]
                    self.head_says(proof, kind, stmt@, Ok(o))
            },
        }
    }
}

/// Makes a certificate of the openings of a leaf proof.
pub fn build_leaf_pcs_certificate<
    S: LeafSystem,
    V: Fn(&FriFoldAir, &[Val], &[u8]) -> bool,
    D: Fn(&DeepRoAir, &[Val], &[u8]) -> bool,
    T: Fn(&DeepRoLeafTraceAir, &[Val], &[u8]) -> bool,
    K: Fn(&MmcsGroupPathAir, &[Val], &[u8]) -> bool,
    P: Fn(&[MmcsPathStatement], &PoseidonGroupFoldProof) -> bool,
>(
    proof: &StarkProofView,
    kind: LeafKind,
    stmt_digest: [u8; 32],
    ctx: &LeafContext<S, V, D, T, K, P>,
) -> (r: Result<LeafPcsCertificate<S::Ood>, LeafCertError>)
    requires
        ctx.ready(),
    ensures
        ctx.built(*proof, kind, stmt_digest, r),
{
    proof {
        reveal(LeafContext::built);
    }
    let ood = match ctx.build_head(proof, kind, &stmt_digest) {
        Ok(o) => o,
        Err(e) => {
            return Err(e);
        },
    };
    let folds = match ctx.build_folds(proof) {
        Ok(f) => f,
        Err(e) => {
            return Err(e);
        },
    };
    let deep = match ctx.build_deep(proof, &folds) {
        Ok(d) => d,
        Err(e) => {
            return Err(e);
        },
    };
    let m = match ctx.build_mmcs(proof) {
        Ok(m) => m,
        Err(e) => {
            proof {
                assert(ctx.tail_fails(*proof, e));
                assert(ctx.deep_fails(*proof, folds, e));
            }
            return Err(e);
        },
    };
    if proof.trace_commitment.len() == 0 {
        proof {
            assert(ctx.mmcs_built(*proof, Ok(m)));
            assert(ctx.tail_fails(*proof, LeafCertError::NoCommitment));
            assert(ctx.deep_fails(*proof, folds, LeafCertError::NoCommitment));
        }
        return Err(LeafCertError::NoCommitment);
    }
    proof {
        lemma_built_paths(*ctx, *proof, m);
    }
    let merkle_fold = copy_path(&m.0.val[0].trace_path);
    Ok(
        LeafPcsCertificate {
            kind,
            trace_width: proof.trace_local.len() as u32,
            degree_bits: proof.degree_bits as u32,
            stmt_digest,
            trace_commitment: proof.trace_commitment[0],
            lde_index: 0,
            lde_row: Vec::new(),
            siblings: Vec::new(),
            merkle_fold,
            mmcs_groups: m.1,
            fri_fold_ys: folds.fold_ys,
            fri_folds: folds.fold_xs,
            deep_ros: deep.deep_ros,
            deep_ro_traces: deep.deep_ro_traces,
            ood,
            fri_mmcs: m.0,
        },
    )
}

/// Paths without nested proof bytes keep their shape.
proof fn lemma_stripped_shapes(rules: LeafRules, b: AggFriMmcsBundle, c: AggFriMmcsBundle)
    requires
        mmcs_shape_report(rules, b) is None,
        bundle_stripped(b, c),
    ensures
        c.val@.len() == rules.proven_queries,
        c.chal@.len() == rules.proven_queries,
        forall|q: int| 0 <= q < c.val@.len() ==> val_shape_ok(#[trigger] c.val@[q]),
        forall|q: int| 0 <= q < c.chal@.len() ==> chal_shape_ok(#[trigger] c.chal@[q]),
{
    assert forall|q: int| 0 <= q < c.val@.len() implies val_shape_ok(#[trigger] c.val@[q]) by {
        lemma_first_some_none(b.val@.len(), val_reports(rules, b.val@), q);
        assert(val_shape_ok(b.val@[q]));
    }
    assert forall|q: int| 0 <= q < c.chal@.len() implies chal_shape_ok(#[trigger] c.chal@[q]) by {
        lemma_first_some_none(b.chal@.len(), chal_reports(b.chal@), q);
        assert(chal_shape_ok(b.chal@[q]));
    }
}

/// Paths that were bound and folded have the shape a certificate asks for.
proof fn lemma_bundle_said<
    S: LeafSystem,
    V: Fn(&FriFoldAir, &[Val], &[u8]) -> bool,
    D: Fn(&DeepRoAir, &[Val], &[u8]) -> bool,
    T: Fn(&DeepRoLeafTraceAir, &[Val], &[u8]) -> bool,
    K: Fn(&MmcsGroupPathAir, &[Val], &[u8]) -> bool,
    P: Fn(&[MmcsPathStatement], &PoseidonGroupFoldProof) -> bool,
>(
    ctx: LeafContext<S, V, D, T, K, P>,
    proof: StarkProofView,
    b: AggFriMmcsBundle,
    m: (AggFriMmcsBundle, LeafMmcsFoldGroups),
)
    requires
        ctx.bundle_says(proof, b, Ok(m)),
    ensures
        m.0.val@.len() == ctx.rules.proven_queries,
        m.0.chal@.len() == ctx.rules.proven_queries,
        forall|q: int| 0 <= q < m.0.val@.len() ==> val_shape_ok(#[trigger] m.0.val@[q]),
        forall|q: int| 0 <= q < m.0.chal@.len() ==> chal_shape_ok(#[trigger] m.0.chal@[q]),
{
    let x = Ok::<(AggFriMmcsBundle, LeafMmcsFoldGroups), LeafCertError>(m);
    let (c, g) = choose|c: AggFriMmcsBundle, g: LeafMmcsFoldGroups| #[trigger]
        folded_as(b, c, g) && ctx.folded_says(proof, c, g, x);
    lemma_stripped_shapes(ctx.rules, b, c);
}

/// Recorded paths have the shape a certificate asks for.
pub(crate) proof fn lemma_built_paths<
    S: LeafSystem,
    V: Fn(&FriFoldAir, &[Val], &[u8]) -> bool,
    D: Fn(&DeepRoAir, &[Val], &[u8]) -> bool,
    T: Fn(&DeepRoLeafTraceAir, &[Val], &[u8]) -> bool,
    K: Fn(&MmcsGroupPathAir, &[Val], &[u8]) -> bool,
    P: Fn(&[MmcsPathStatement], &PoseidonGroupFoldProof) -> bool,
>(
    ctx: LeafContext<S, V, D, T, K, P>,
    proof: StarkProofView,
    m: (AggFriMmcsBundle, LeafMmcsFoldGroups),
)
    requires
        ctx.mmcs_built(proof, Ok(m)),
    ensures
        m.0.val@.len() == ctx.rules.proven_queries,
        m.0.chal@.len() == ctx.rules.proven_queries,
        forall|q: int| 0 <= q < m.0.val@.len() ==> val_shape_ok(#[trigger] m.0.val@[q]),
        forall|q: int| 0 <= q < m.0.chal@.len() ==> chal_shape_ok(#[trigger] m.0.chal@[q]),
        rounds_fit(proof.opening_proof, ctx.params.log_blowup),
{
    let x = Ok::<(AggFriMmcsBundle, LeafMmcsFoldGroups), LeafCertError>(m);
    let r = choose|r: Result<AggFriMmcsBundle, MmcsError>| #[trigger]
        mmcs_bundle_outcome(proof, proof.trace_local.len(), ctx.params, r) && match r {
            Err(e) => x == Err::<(AggFriMmcsBundle, LeafMmcsFoldGroups), LeafCertError>(
                LeafCertError::Mmcs(e),
            ),
            Ok(b) => ctx.bundle_says(proof, b, x),
        };
    lemma_bundle_said(ctx, proof, r->Ok_0, m);
}

/// A certificate as made has the shape its check asks for, where every certified query has its
/// reduced openings or none were due, and the width and degree fit their fields.
pub proof fn lemma_built_certificate_shaped<
    S: LeafSystem,
    V: Fn(&FriFoldAir, &[Val], &[u8]) -> bool,
    D: Fn(&DeepRoAir, &[Val], &[u8]) -> bool,
    T: Fn(&DeepRoLeafTraceAir, &[Val], &[u8]) -> bool,
    K: Fn(&MmcsGroupPathAir, &[Val], &[u8]) -> bool,
    P: Fn(&[MmcsPathStatement], &PoseidonGroupFoldProof) -> bool,
>(
    ctx: LeafContext<S, V, D, T, K, P>,
    proof: StarkProofView,
    kind: LeafKind,
    stmt: [u8; 32],
    c: LeafPcsCertificate<S::Ood>,
)
    requires
        ctx.built(proof, kind, stmt, Ok(c)),
        proof.degree_bits <= u32::MAX,
        proof.quotient_chunks@.len() == 1 ==> c.deep_ros@.len() == ctx.rules.proven_queries
            && c.deep_ro_traces@.len() == ctx.rules.proven_queries,
        proof.quotient_chunks@.len() > 0,
    ensures
        cert_shape_ok(ctx.rules, ctx.params, proof, c),
{
    reveal(LeafContext::built);
    lemma_built_paths(ctx, proof, (c.fri_mmcs, c.mmcs_groups));
}

} // verus!
