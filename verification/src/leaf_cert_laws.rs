//! What a leaf certificate is worth: which leaves get one, and what follows from an accepted one.
use vstd::prelude::*;

use crate::chal_mmcs::FriChalMmcsQueryProof;
use crate::checks::first_failing;
use crate::child_binding::sha3_256;
use crate::deep_ro_air::{deep_ro_verify_outcome, DeepRoAir, DeepRoStepProof};
use crate::deep_ro_leaf_trace_air::{
    leaf_verify_outcome, DeepRoLeafTraceAir, DeepRoLeafTraceStepProof,
};
use crate::field::Val;
use crate::fri_fold_air::{fold_verify_outcome, FoldAxis, FriFoldAir, FriFoldStepProof};
use crate::fri_fold_bind::AggFriFoldBundle;
use crate::fri_fs_replay::{is_replay, AggFriChallenges};
use crate::fri_mmcs_bind::AggFriMmcsBundle;
use crate::fri_mmcs_group_m4b::{MmcsGroupPathAir, MmcsPathStatement};
use crate::fri_mmcs_m4c::{group_bind_outcome, GroupBindError};
use crate::leaf_pcs_build::mmcs_shape_report;
use crate::leaf_pcs_cert::{
    cert_shape_ok, LeafCertError, LeafContext, LeafDeepBundle, LeafPcsCertificate, LeafSystem,
};
use crate::leaf_stmt::{
    chal_shape_ok, digest_bytes, leaf_stmt_bytes, val_shape_ok, varint, LeafKind, LeafRules,
};
use crate::mmcs_bind_laws::{chal_leads, lemma_grouped_bundle_bound, val_leads};
use crate::mmcs_group_fold::PoseidonGroupFoldProof;
use crate::mmcs_strip::LeafMmcsFoldGroups;
use crate::pcs_view::StarkProofView;
use crate::val_mmcs::FriValMmcsQueryProof;

verus! {

/// A unitary leaf of the unitary width has no width error, and is certified as one of no
/// outcomes.
pub proof fn lemma_unitary_width<
    S: LeafSystem,
    V: Fn(&FriFoldAir, &[Val], &[u8]) -> bool,
    D: Fn(&DeepRoAir, &[Val], &[u8]) -> bool,
    T: Fn(&DeepRoLeafTraceAir, &[Val], &[u8]) -> bool,
    K: Fn(&MmcsGroupPathAir, &[Val], &[u8]) -> bool,
    P: Fn(&[MmcsPathStatement], &PoseidonGroupFoldProof) -> bool,
>(ctx: LeafContext<S, V, D, T, K, P>, width: usize, o: Option<usize>)
    requires
        1 <= width <= 68,
        width == ctx.rules.unitary_width,
        ctx.width_says(LeafKind::Unitary, width, o),
    ensures
        o == Some(0usize),
{
}

/// A trace width that a kind of leaf cannot have.
pub open spec fn width_refused<
    S: LeafSystem,
    V: Fn(&FriFoldAir, &[Val], &[u8]) -> bool,
    D: Fn(&DeepRoAir, &[Val], &[u8]) -> bool,
    T: Fn(&DeepRoLeafTraceAir, &[Val], &[u8]) -> bool,
    K: Fn(&MmcsGroupPathAir, &[Val], &[u8]) -> bool,
    P: Fn(&[MmcsPathStatement], &PoseidonGroupFoldProof) -> bool,
>(ctx: LeafContext<S, V, D, T, K, P>, kind: LeafKind, width: usize) -> bool {
    ||| width == 0
    ||| width > 68
    ||| kind == LeafKind::Unitary && width != ctx.rules.unitary_width
    ||| (kind == LeafKind::Born || kind == LeafKind::TrajMarginal) && call_ensures(
        S::outcomes,
        (&ctx.system, width),
        None,
    )
}

/// The width error comes for a width that the kind cannot have, and only there: not where a
/// unitary leaf has the unitary width, nor for shots of any width in range.
pub proof fn lemma_width_error<
    S: LeafSystem,
    V: Fn(&FriFoldAir, &[Val], &[u8]) -> bool,
    D: Fn(&DeepRoAir, &[Val], &[u8]) -> bool,
    T: Fn(&DeepRoLeafTraceAir, &[Val], &[u8]) -> bool,
    K: Fn(&MmcsGroupPathAir, &[Val], &[u8]) -> bool,
    P: Fn(&[MmcsPathStatement], &PoseidonGroupFoldProof) -> bool,
>(
    ctx: LeafContext<S, V, D, T, K, P>,
    proof: StarkProofView,
    kind: LeafKind,
    stmt: [u8; 32],
)
    requires
        ctx.built(proof, kind, stmt, Err(LeafCertError::Width)),
    ensures
        width_refused(ctx, kind, proof.trace_local.len()),
{
    reveal(LeafContext::built);
    let e = LeafCertError::Width;
    if !ctx.head_says(proof, kind, stmt@, Err(e)) {
        assert(ctx.folds_fail(proof, e));
        lemma_no_late_width(ctx, proof);
    }
}

/// The steps after the first do not speak of widths.
proof fn lemma_no_late_width<
    S: LeafSystem,
    V: Fn(&FriFoldAir, &[Val], &[u8]) -> bool,
    D: Fn(&DeepRoAir, &[Val], &[u8]) -> bool,
    T: Fn(&DeepRoLeafTraceAir, &[Val], &[u8]) -> bool,
    K: Fn(&MmcsGroupPathAir, &[Val], &[u8]) -> bool,
    P: Fn(&[MmcsPathStatement], &PoseidonGroupFoldProof) -> bool,
>(ctx: LeafContext<S, V, D, T, K, P>, proof: StarkProofView)
    ensures
        !ctx.folds_fail(proof, LeafCertError::Width),
{
    let e = LeafCertError::Width;
    assert(!ctx.mmcs_built(proof, Err(e))) by {
        if ctx.mmcs_built(proof, Err(e)) {
            lemma_mmcs_errors(ctx, proof, e);
        }
    }
    assert(!ctx.tail_fails(proof, e));
    assert forall|f: AggFriFoldBundle| !(#[trigger] ctx.deep_fails(proof, f, e)) by {}
}

/// The errors of recording paths.
proof fn lemma_mmcs_errors<
    S: LeafSystem,
    V: Fn(&FriFoldAir, &[Val], &[u8]) -> bool,
    D: Fn(&DeepRoAir, &[Val], &[u8]) -> bool,
    T: Fn(&DeepRoLeafTraceAir, &[Val], &[u8]) -> bool,
    K: Fn(&MmcsGroupPathAir, &[Val], &[u8]) -> bool,
    P: Fn(&[MmcsPathStatement], &PoseidonGroupFoldProof) -> bool,
>(ctx: LeafContext<S, V, D, T, K, P>, proof: StarkProofView, e: LeafCertError)
    requires
        ctx.mmcs_built(proof, Err(e)),
    ensures
        e != LeafCertError::Width,
{
    let x = Err::<(AggFriMmcsBundle, LeafMmcsFoldGroups), LeafCertError>(e);
    if e == LeafCertError::Width {
        let m = choose|m: Result<AggFriMmcsBundle, crate::fri_mmcs_bind::MmcsError>| #[trigger]
            crate::fri_mmcs_bind::mmcs_bundle_outcome(
                proof,
                proof.trace_local.len(),
                ctx.params,
                m,
            ) && match m {
                Err(e) => x == Err::<(AggFriMmcsBundle, LeafMmcsFoldGroups), LeafCertError>(
                    LeafCertError::Mmcs(e),
                ),
                Ok(b) => ctx.bundle_says(proof, b, x),
            };
        let b = m->Ok_0;
        if mmcs_shape_report(ctx.rules, b) is Some {
            lemma_shape_errors(ctx.rules, b);
        }
    }
}

/// The errors of path shapes.
proof fn lemma_shape_errors(rules: LeafRules, b: AggFriMmcsBundle)
    ensures
        mmcs_shape_report(rules, b) != Some(LeafCertError::Width),
{
    if mmcs_shape_report(rules, b) == Some(LeafCertError::Width) {
        let f = crate::leaf_pcs_build::val_reports(rules, b.val@);
        let g = crate::leaf_pcs_build::chal_reports(b.chal@);
        if crate::checks::first_some(b.val@.len(), f) is Some {
            let k = crate::checks::lemma_first_some_found(b.val@.len(), f);
        } else {
            let k = crate::checks::lemma_first_some_found(b.chal@.len(), g);
        }
    }
}

/// A leaf of a width that its kind cannot have gets no certificate.
pub proof fn lemma_other_width_refused<
    S: LeafSystem,
    V: Fn(&FriFoldAir, &[Val], &[u8]) -> bool,
    D: Fn(&DeepRoAir, &[Val], &[u8]) -> bool,
    T: Fn(&DeepRoLeafTraceAir, &[Val], &[u8]) -> bool,
    K: Fn(&MmcsGroupPathAir, &[Val], &[u8]) -> bool,
    P: Fn(&[MmcsPathStatement], &PoseidonGroupFoldProof) -> bool,
>(
    ctx: LeafContext<S, V, D, T, K, P>,
    proof: StarkProofView,
    kind: LeafKind,
    stmt: [u8; 32],
    r: Result<LeafPcsCertificate<S::Ood>, LeafCertError>,
)
    requires
        ctx.built(proof, kind, stmt, r),
        ({
            let width = proof.trace_local.len();
            width == 0 || width > 68 || (kind == LeafKind::Unitary && width
                != ctx.rules.unitary_width)
        }),
    ensures
        r is Err,
{
    reveal(LeafContext::built);
}

/// A certificate that is asked for under another digest than the leaf's statement is refused.
pub proof fn lemma_other_statement_refused<
    S: LeafSystem,
    V: Fn(&FriFoldAir, &[Val], &[u8]) -> bool,
    D: Fn(&DeepRoAir, &[Val], &[u8]) -> bool,
    T: Fn(&DeepRoLeafTraceAir, &[Val], &[u8]) -> bool,
    K: Fn(&MmcsGroupPathAir, &[Val], &[u8]) -> bool,
    P: Fn(&[MmcsPathStatement], &PoseidonGroupFoldProof) -> bool,
>(
    ctx: LeafContext<S, V, D, T, K, P>,
    proof: StarkProofView,
    kind: LeafKind,
    stmt: [u8; 32],
    r: Result<LeafPcsCertificate<S::Ood>, LeafCertError>,
)
    requires
        ctx.built(proof, kind, stmt, r),
    ensures
        stmt@ != sha3_256(leaf_stmt_bytes(ctx.rules, kind, proof)) ==> r == Err::<
            LeafPcsCertificate<S::Ood>,
            LeafCertError,
        >(LeafCertError::StmtDigest),
        r == Err::<LeafPcsCertificate<S::Ood>, LeafCertError>(LeafCertError::StmtDigest) ==> stmt@
            != sha3_256(leaf_stmt_bytes(ctx.rules, kind, proof)),
{
    reveal(LeafContext::built);
    let e = LeafCertError::StmtDigest;
    if r == Err::<LeafPcsCertificate<S::Ood>, LeafCertError>(e) && !ctx.head_says(
        proof,
        kind,
        stmt@,
        Err(e),
    ) {
        lemma_no_late_statement(ctx, proof);
    }
}

/// The steps after the first do not speak of statements.
proof fn lemma_no_late_statement<
    S: LeafSystem,
    V: Fn(&FriFoldAir, &[Val], &[u8]) -> bool,
    D: Fn(&DeepRoAir, &[Val], &[u8]) -> bool,
    T: Fn(&DeepRoLeafTraceAir, &[Val], &[u8]) -> bool,
    K: Fn(&MmcsGroupPathAir, &[Val], &[u8]) -> bool,
    P: Fn(&[MmcsPathStatement], &PoseidonGroupFoldProof) -> bool,
>(ctx: LeafContext<S, V, D, T, K, P>, proof: StarkProofView)
    ensures
        !ctx.folds_fail(proof, LeafCertError::StmtDigest),
{
    let e = LeafCertError::StmtDigest;
    let x = Err::<(AggFriMmcsBundle, LeafMmcsFoldGroups), LeafCertError>(e);
    if ctx.mmcs_built(proof, x) {
        let m = choose|m: Result<AggFriMmcsBundle, crate::fri_mmcs_bind::MmcsError>| #[trigger]
            crate::fri_mmcs_bind::mmcs_bundle_outcome(
                proof,
                proof.trace_local.len(),
                ctx.params,
                m,
            ) && match m {
                Err(e) => x == Err::<(AggFriMmcsBundle, LeafMmcsFoldGroups), LeafCertError>(
                    LeafCertError::Mmcs(e),
                ),
                Ok(b) => ctx.bundle_says(proof, b, x),
            };
        let b = m->Ok_0;
        if mmcs_shape_report(ctx.rules, b) is Some {
            let f = crate::leaf_pcs_build::val_reports(ctx.rules, b.val@);
            let g = crate::leaf_pcs_build::chal_reports(b.chal@);
            if crate::checks::first_some(b.val@.len(), f) is Some {
                let k = crate::checks::lemma_first_some_found(b.val@.len(), f);
            } else if crate::checks::first_some(b.chal@.len(), g) is Some {
                let k = crate::checks::lemma_first_some_found(b.chal@.len(), g);
            }
        }
    }
    assert(!ctx.tail_fails(proof, e));
    assert forall|f: AggFriFoldBundle| !(#[trigger] ctx.deep_fails(proof, f, e)) by {}
}

/// Every step of the surrounding system succeeds on a leaf: its constraints, its folds and its
/// reduced openings are proven and found right.
pub open spec fn steps_succeed<
    S: LeafSystem,
    V: Fn(&FriFoldAir, &[Val], &[u8]) -> bool,
    D: Fn(&DeepRoAir, &[Val], &[u8]) -> bool,
    T: Fn(&DeepRoLeafTraceAir, &[Val], &[u8]) -> bool,
    K: Fn(&MmcsGroupPathAir, &[Val], &[u8]) -> bool,
    P: Fn(&[MmcsPathStatement], &PoseidonGroupFoldProof) -> bool,
>(
    ctx: LeafContext<S, V, D, T, K, P>,
    proof: StarkProofView,
    kind: LeafKind,
) -> bool {
    let width = proof.trace_local.len();
    &&& forall|n: usize, p: Option<S::Ood>| #[trigger]
        call_ensures(S::prove_ood, (&ctx.system, &proof, kind, n), p) ==> p is Some
    &&& forall|o: S::Ood, v: bool| #[trigger]
        call_ensures(S::ood_ok, (&ctx.system, &o), v) ==> v
    &&& forall|p: Option<AggFriFoldBundle>| #[trigger]
        call_ensures(S::prove_folds, (&ctx.system, &proof, width), p) ==> p is Some
    &&& forall|p: Option<LeafDeepBundle>| #[trigger]
        call_ensures(S::prove_deep, (&ctx.system, &proof, width), p) ==> p is Some
    &&& forall|axis: FoldAxis, s: FriFoldStepProof, v: bool| #[trigger]
        fold_verify_outcome(ctx.fold, axis, s, v) ==> v
    &&& forall|s: DeepRoStepProof, v: bool| #[trigger]
        deep_ro_verify_outcome(ctx.deep, s, v) ==> v
    &&& forall|s: DeepRoLeafTraceStepProof, v: bool| #[trigger]
        leaf_verify_outcome(ctx.trace, s, v) ==> v
    &&& forall|
        a: Vec<DeepRoStepProof>,
        b: Vec<DeepRoLeafTraceStepProof>,
        c: Vec<FriFoldStepProof>,
        v: bool,
    | #[trigger]
        call_ensures(S::deep_bound, (&ctx.system, &proof, &a, &b, &c, width), v) ==> v
}

/// A unitary leaf of the unitary width gets its certificate, where its statement is the one asked
/// for, every step of the surrounding system succeeds, its paths can be recorded and bound, and it
/// has a trace commitment.
pub proof fn lemma_unitary_certified<
    S: LeafSystem,
    V: Fn(&FriFoldAir, &[Val], &[u8]) -> bool,
    D: Fn(&DeepRoAir, &[Val], &[u8]) -> bool,
    T: Fn(&DeepRoLeafTraceAir, &[Val], &[u8]) -> bool,
    K: Fn(&MmcsGroupPathAir, &[Val], &[u8]) -> bool,
    P: Fn(&[MmcsPathStatement], &PoseidonGroupFoldProof) -> bool,
>(
    ctx: LeafContext<S, V, D, T, K, P>,
    proof: StarkProofView,
    stmt: [u8; 32],
    r: Result<LeafPcsCertificate<S::Ood>, LeafCertError>,
)
    requires
        ctx.built(proof, LeafKind::Unitary, stmt, r),
        1 <= proof.trace_local.len() <= 68,
        proof.trace_local.len() == ctx.rules.unitary_width,
        stmt@ == sha3_256(leaf_stmt_bytes(ctx.rules, LeafKind::Unitary, proof)),
        steps_succeed(ctx, proof, LeafKind::Unitary),
        forall|x: Result<(AggFriMmcsBundle, LeafMmcsFoldGroups), LeafCertError>| #[trigger]
            ctx.mmcs_built(proof, x) ==> x is Ok,
        proof.trace_commitment@.len() > 0,
    ensures
        r is Ok,
{
    reveal(LeafContext::built);
    if let Err(e) = r {
        let x = Err::<S::Ood, LeafCertError>(e);
        if ctx.head_says(proof, LeafKind::Unitary, stmt@, x) {
            let o = choose|o: Option<usize>| #[trigger]
                ctx.width_says(LeafKind::Unitary, proof.trace_local.len(), o) && match o {
                    None => x == Err::<S::Ood, LeafCertError>(LeafCertError::Width),
                    Some(n) => exists|p: Option<S::Ood>| #[trigger]
                        call_ensures(
                            S::prove_ood,
                            (&ctx.system, &proof, LeafKind::Unitary, n),
                            p,
                        ) && match p {
                            None => x == Err::<S::Ood, LeafCertError>(LeafCertError::OodProve),
                            Some(q) => ctx.ood_says(q, x),
                        },
                };
            lemma_unitary_width(ctx, proof.trace_local.len(), o);
        } else {
            assert(ctx.folds_fail(proof, e));
            lemma_later_steps(ctx, proof, LeafKind::Unitary, e);
        }
    }
}

/// The steps after the first succeed.
proof fn lemma_later_steps<
    S: LeafSystem,
    V: Fn(&FriFoldAir, &[Val], &[u8]) -> bool,
    D: Fn(&DeepRoAir, &[Val], &[u8]) -> bool,
    T: Fn(&DeepRoLeafTraceAir, &[Val], &[u8]) -> bool,
    K: Fn(&MmcsGroupPathAir, &[Val], &[u8]) -> bool,
    P: Fn(&[MmcsPathStatement], &PoseidonGroupFoldProof) -> bool,
>(
    ctx: LeafContext<S, V, D, T, K, P>,
    proof: StarkProofView,
    kind: LeafKind,
    e: LeafCertError,
)
    requires
        steps_succeed(ctx, proof, kind),
        forall|x: Result<(AggFriMmcsBundle, LeafMmcsFoldGroups), LeafCertError>| #[trigger]
            ctx.mmcs_built(proof, x) ==> x is Ok,
        proof.trace_commitment@.len() > 0,
    ensures
        !ctx.folds_fail(proof, e),
{
    assert(!ctx.tail_fails(proof, e)) by {
        if ctx.mmcs_built(proof, Err(e)) {
        }
    }
    assert forall|axis: FoldAxis, s: Seq<FriFoldStepProof>, f: Option<usize>| #[trigger]
        ctx.folds_say(axis, s, f) implies f is None by {
        if let Some(i) = f {
            let says = |i: int, v: bool| fold_verify_outcome(ctx.fold, axis, s[i], v);
            assert(says(i as int, false));
        }
    }
    assert forall|s: Seq<DeepRoStepProof>, f: Option<usize>| #[trigger]
        ctx.ros_say(s, f) implies f is None by {
        if let Some(i) = f {
            let says = |i: int, v: bool| deep_ro_verify_outcome(ctx.deep, s[i], v);
            assert(says(i as int, false));
        }
    }
    assert forall|s: Seq<DeepRoLeafTraceStepProof>, f: Option<usize>| #[trigger]
        ctx.traces_say(s, f) implies f is None by {
        if let Some(i) = f {
            let says = |i: int, v: bool| leaf_verify_outcome(ctx.trace, s[i], v);
            assert(says(i as int, false));
        }
    }
    assert(!ctx.folds_built(proof, Err(e)));
    assert forall|f: AggFriFoldBundle| !(#[trigger] ctx.deep_fails(proof, f, e)) by {
        assert(!ctx.deep_built(proof, f, Err(e)));
    }
}

/// Every step of a list may be accepted on an axis.
pub open spec fn folds_accepted<V: Fn(&FriFoldAir, &[Val], &[u8]) -> bool>(
    verifier: V,
    axis: FoldAxis,
    s: Seq<FriFoldStepProof>,
) -> bool {
    forall|i: int|
        0 <= i < s.len() ==> fold_verify_outcome(verifier, axis, #[trigger] s[i], true)
}

/// Every reduced quotient opening of a list may be accepted.
pub open spec fn ros_accepted<D: Fn(&DeepRoAir, &[Val], &[u8]) -> bool>(
    verifier: D,
    s: Seq<DeepRoStepProof>,
) -> bool {
    forall|i: int| 0 <= i < s.len() ==> deep_ro_verify_outcome(verifier, #[trigger] s[i], true)
}

/// Every reduced trace opening of a list may be accepted.
pub open spec fn traces_accepted<T: Fn(&DeepRoLeafTraceAir, &[Val], &[u8]) -> bool>(
    verifier: T,
    s: Seq<DeepRoLeafTraceStepProof>,
) -> bool {
    forall|i: int| 0 <= i < s.len() ==> leaf_verify_outcome(verifier, #[trigger] s[i], true)
}

/// A list that has no failing step is accepted.
proof fn lemma_all_accepted<
    S: LeafSystem,
    V: Fn(&FriFoldAir, &[Val], &[u8]) -> bool,
    D: Fn(&DeepRoAir, &[Val], &[u8]) -> bool,
    T: Fn(&DeepRoLeafTraceAir, &[Val], &[u8]) -> bool,
    K: Fn(&MmcsGroupPathAir, &[Val], &[u8]) -> bool,
    P: Fn(&[MmcsPathStatement], &PoseidonGroupFoldProof) -> bool,
>(ctx: LeafContext<S, V, D, T, K, P>)
    ensures
        forall|axis: FoldAxis, s: Seq<FriFoldStepProof>| #[trigger]
            ctx.folds_say(axis, s, None) ==> folds_accepted(ctx.fold, axis, s),
        forall|s: Seq<DeepRoStepProof>| #[trigger]
            ctx.ros_say(s, None) ==> ros_accepted(ctx.deep, s),
        forall|s: Seq<DeepRoLeafTraceStepProof>| #[trigger]
            ctx.traces_say(s, None) ==> traces_accepted(ctx.trace, s),
{
    assert forall|axis: FoldAxis, s: Seq<FriFoldStepProof>| #[trigger]
        ctx.folds_say(axis, s, None) implies folds_accepted(ctx.fold, axis, s) by {
        let says = |i: int, v: bool| fold_verify_outcome(ctx.fold, axis, s[i], v);
        assert(first_failing(s.len(), says, None));
        assert forall|i: int| 0 <= i < s.len() implies fold_verify_outcome(
            ctx.fold,
            axis,
            #[trigger] s[i],
            true,
        ) by {
            assert(says(i, true));
        }
    }
    assert forall|s: Seq<DeepRoStepProof>| #[trigger]
        ctx.ros_say(s, None) implies ros_accepted(ctx.deep, s) by {
        let says = |i: int, v: bool| deep_ro_verify_outcome(ctx.deep, s[i], v);
        assert(first_failing(s.len(), says, None));
        assert forall|i: int| 0 <= i < s.len() implies deep_ro_verify_outcome(
            ctx.deep,
            #[trigger] s[i],
            true,
        ) by {
            assert(says(i, true));
        }
    }
    assert forall|s: Seq<DeepRoLeafTraceStepProof>| #[trigger]
        ctx.traces_say(s, None) implies traces_accepted(ctx.trace, s) by {
        let says = |i: int, v: bool| leaf_verify_outcome(ctx.trace, s[i], v);
        assert(first_failing(s.len(), says, None));
        assert forall|i: int| 0 <= i < s.len() implies leaf_verify_outcome(
            ctx.trace,
            #[trigger] s[i],
            true,
        ) by {
            assert(says(i, true));
        }
    }
}

/// A trace width that a kind of leaf may have.
pub open spec fn width_allowed<
    S: LeafSystem,
    V: Fn(&FriFoldAir, &[Val], &[u8]) -> bool,
    D: Fn(&DeepRoAir, &[Val], &[u8]) -> bool,
    T: Fn(&DeepRoLeafTraceAir, &[Val], &[u8]) -> bool,
    K: Fn(&MmcsGroupPathAir, &[Val], &[u8]) -> bool,
    P: Fn(&[MmcsPathStatement], &PoseidonGroupFoldProof) -> bool,
>(ctx: LeafContext<S, V, D, T, K, P>, kind: LeafKind, width: usize) -> bool {
    &&& 1 <= width <= 68
    &&& kind == LeafKind::Unitary ==> width == ctx.rules.unitary_width
    &&& kind == LeafKind::Born || kind == LeafKind::TrajMarginal ==> exists|n: usize| #[trigger]
        call_ensures(S::outcomes, (&ctx.system, width), Some(n))
}

/// What a certificate shows of a leaf: every check of the surrounding system that it rests on may
/// return true.
pub open spec fn cert_shows<
    S: LeafSystem,
    V: Fn(&FriFoldAir, &[Val], &[u8]) -> bool,
    D: Fn(&DeepRoAir, &[Val], &[u8]) -> bool,
    T: Fn(&DeepRoLeafTraceAir, &[Val], &[u8]) -> bool,
    K: Fn(&MmcsGroupPathAir, &[Val], &[u8]) -> bool,
    P: Fn(&[MmcsPathStatement], &PoseidonGroupFoldProof) -> bool,
>(
    ctx: LeafContext<S, V, D, T, K, P>,
    proof: StarkProofView,
    c: LeafPcsCertificate<S::Ood>,
) -> bool {
    let width = proof.trace_local.len();
    &&& c.stmt_digest@ == sha3_256(leaf_stmt_bytes(ctx.rules, c.kind, proof))
    &&& width_allowed(ctx, c.kind, width)
    &&& call_ensures(S::ood_ok, (&ctx.system, &c.ood), true)
    &&& folds_accepted(ctx.fold, FoldAxis::Y, c.fri_fold_ys@)
    &&& folds_accepted(ctx.fold, FoldAxis::X, c.fri_folds@)
    &&& ros_accepted(ctx.deep, c.deep_ros@)
    &&& traces_accepted(ctx.trace, c.deep_ro_traces@)
    &&& c.deep_ros@.len() > 0 ==> call_ensures(
        S::deep_bound,
        (&ctx.system, &proof, &c.deep_ros, &c.deep_ro_traces, &c.fri_fold_ys, width),
        true,
    )
    &&& group_bind_outcome(
        ctx.keccak,
        ctx.poseidon,
        proof,
        c.fri_mmcs,
        c.mmcs_groups,
        width,
        ctx.params,
        Ok(()),
    )
    &&& proof.trace_commitment@.len() > 0
    &&& c.trace_commitment == proof.trace_commitment@[0]
    &&& c.fri_mmcs.val@.len() == ctx.rules.proven_queries
    &&& c.fri_mmcs.chal@.len() == ctx.rules.proven_queries
}

/// An accepted certificate states its leaf, and every check it rests on may return true, with the
/// parts of the certificate as they are and the leaf proof at hand.
pub proof fn lemma_accepted_certificate<
    S: LeafSystem,
    V: Fn(&FriFoldAir, &[Val], &[u8]) -> bool,
    D: Fn(&DeepRoAir, &[Val], &[u8]) -> bool,
    T: Fn(&DeepRoLeafTraceAir, &[Val], &[u8]) -> bool,
    K: Fn(&MmcsGroupPathAir, &[Val], &[u8]) -> bool,
    P: Fn(&[MmcsPathStatement], &PoseidonGroupFoldProof) -> bool,
>(
    ctx: LeafContext<S, V, D, T, K, P>,
    proof: StarkProofView,
    c: LeafPcsCertificate<S::Ood>,
)
    requires
        ctx.verdict(proof, c, true),
    ensures
        cert_shows(ctx, proof, c),
        call_ensures(S::ood_bound, (&ctx.system, &proof, &c.ood, c.kind), true),
        call_ensures(
            S::folds_bound,
            (&ctx.system, &proof, &c.fri_fold_ys, &c.fri_folds, proof.trace_local.len()),
            true,
        ),
        c.trace_width == proof.trace_local.len(),
        c.degree_bits == proof.degree_bits,
        proof.quotient_chunks@.len() <= 1 ==> c.deep_ros@.len() == ctx.rules.proven_queries
            && c.deep_ro_traces@.len() == ctx.rules.proven_queries,
        c.deep_ros@.len() == c.deep_ro_traces@.len(),
{
    let f = choose|f: Option<usize>| #[trigger]
        ctx.checks_say(proof, c, f) && true == (f is None);
    lemma_checks_made(ctx, proof, c);
    lemma_check_true(ctx, proof, c, 0);
    lemma_check_true(ctx, proof, c, 1);
    lemma_check_true(ctx, proof, c, 2);
    lemma_check_true(ctx, proof, c, 3);
    lemma_check_true(ctx, proof, c, 4);
    lemma_check_true(ctx, proof, c, 5);
    lemma_check_true(ctx, proof, c, 6);
    lemma_check_true(ctx, proof, c, 7);
    lemma_check_true(ctx, proof, c, 8);
    lemma_group_check(ctx, proof, c);
}

/// Every check of a certificate without a failing one was made.
proof fn lemma_checks_made<
    S: LeafSystem,
    V: Fn(&FriFoldAir, &[Val], &[u8]) -> bool,
    D: Fn(&DeepRoAir, &[Val], &[u8]) -> bool,
    T: Fn(&DeepRoLeafTraceAir, &[Val], &[u8]) -> bool,
    K: Fn(&MmcsGroupPathAir, &[Val], &[u8]) -> bool,
    P: Fn(&[MmcsPathStatement], &PoseidonGroupFoldProof) -> bool,
>(
    ctx: LeafContext<S, V, D, T, K, P>,
    proof: StarkProofView,
    c: LeafPcsCertificate<S::Ood>,
)
    requires
        ctx.checks_say(proof, c, None),
    ensures
        forall|k: int| 0 <= k < 10 ==> #[trigger] ctx.check_says(proof, c, k, true),
{
    let says = |k: int, v: bool| ctx.check_says(proof, c, k, v);
    assert(first_failing(10, says, None));
    assert forall|k: int| 0 <= k < 10 implies #[trigger] ctx.check_says(proof, c, k, true) by {
        assert(says(k, true));
    }
}

/// What the checks before the last show.
proof fn lemma_check_true<
    S: LeafSystem,
    V: Fn(&FriFoldAir, &[Val], &[u8]) -> bool,
    D: Fn(&DeepRoAir, &[Val], &[u8]) -> bool,
    T: Fn(&DeepRoLeafTraceAir, &[Val], &[u8]) -> bool,
    K: Fn(&MmcsGroupPathAir, &[Val], &[u8]) -> bool,
    P: Fn(&[MmcsPathStatement], &PoseidonGroupFoldProof) -> bool,
>(
    ctx: LeafContext<S, V, D, T, K, P>,
    proof: StarkProofView,
    c: LeafPcsCertificate<S::Ood>,
    k: int,
)
    requires
        0 <= k < 9,
        ctx.check_says(proof, c, k, true),
    ensures
        k == 0 ==> width_allowed(ctx, c.kind, proof.trace_local.len()),
        k == 1 ==> call_ensures(S::ood_ok, (&ctx.system, &c.ood), true),
        k == 2 ==> call_ensures(S::ood_bound, (&ctx.system, &proof, &c.ood, c.kind), true),
        k == 3 ==> folds_accepted(ctx.fold, FoldAxis::Y, c.fri_fold_ys@),
        k == 4 ==> folds_accepted(ctx.fold, FoldAxis::X, c.fri_folds@),
        k == 5 ==> ros_accepted(ctx.deep, c.deep_ros@),
        k == 6 ==> traces_accepted(ctx.trace, c.deep_ro_traces@),
        k == 7 ==> call_ensures(
            S::folds_bound,
            (&ctx.system, &proof, &c.fri_fold_ys, &c.fri_folds, proof.trace_local.len()),
            true,
        ),
        k == 8 && c.deep_ros@.len() > 0 ==> call_ensures(
            S::deep_bound,
            (
                &ctx.system,
                &proof,
                &c.deep_ros,
                &c.deep_ro_traces,
                &c.fri_fold_ys,
                proof.trace_local.len(),
            ),
            true,
        ),
{
    lemma_all_accepted(ctx);
    if k == 0 {
        let width = proof.trace_local.len();
        let o = choose|o: Option<usize>| #[trigger]
            ctx.width_says(c.kind, width, o) && true == (o is Some);
        let n = o->0;
        assert(o == Some(n));
    }
}

/// The last check.
proof fn lemma_group_check<
    S: LeafSystem,
    V: Fn(&FriFoldAir, &[Val], &[u8]) -> bool,
    D: Fn(&DeepRoAir, &[Val], &[u8]) -> bool,
    T: Fn(&DeepRoLeafTraceAir, &[Val], &[u8]) -> bool,
    K: Fn(&MmcsGroupPathAir, &[Val], &[u8]) -> bool,
    P: Fn(&[MmcsPathStatement], &PoseidonGroupFoldProof) -> bool,
>(
    ctx: LeafContext<S, V, D, T, K, P>,
    proof: StarkProofView,
    c: LeafPcsCertificate<S::Ood>,
)
    requires
        ctx.check_says(proof, c, 9, true),
    ensures
        group_bind_outcome(
            ctx.keccak,
            ctx.poseidon,
            proof,
            c.fri_mmcs,
            c.mmcs_groups,
            proof.trace_local.len(),
            ctx.params,
            Ok(()),
        ),
{
    let x = choose|x: Result<(), GroupBindError>| #[trigger]
        group_bind_outcome(
            ctx.keccak,
            ctx.poseidon,
            proof,
            c.fri_mmcs,
            c.mmcs_groups,
            proof.trace_local.len(),
            ctx.params,
            x,
        ) && true == (x is Ok);
    assert(x->Ok_0 == ());
    assert(x == Ok::<(), GroupBindError>(()));
}

/// A certificate as made shows its leaf.
pub proof fn lemma_made_certificate<
    S: LeafSystem,
    V: Fn(&FriFoldAir, &[Val], &[u8]) -> bool,
    D: Fn(&DeepRoAir, &[Val], &[u8]) -> bool,
    T: Fn(&DeepRoLeafTraceAir, &[Val], &[u8]) -> bool,
    K: Fn(&MmcsGroupPathAir, &[Val], &[u8]) -> bool,
    P: Fn(&[MmcsPathStatement], &PoseidonGroupFoldProof) -> bool,
>(
    ctx: LeafContext<S, V, D, T, K, P>,
    proof: StarkProofView,
    kind: LeafKind,
    stmt: [u8; 32],
    c: LeafPcsCertificate<S::Ood>,
)
    requires
        ctx.built(proof, kind, stmt, Ok(c)),
    ensures
        c.kind == kind,
        c.stmt_digest == stmt,
        cert_shows(ctx, proof, c),
        exists|n: usize| #[trigger]
            call_ensures(S::prove_ood, (&ctx.system, &proof, kind, n), Some(c.ood)),
        proof.quotient_chunks@.len() != 1 ==> c.deep_ros@.len() == 0 && c.deep_ro_traces@.len()
            == 0,
{
    reveal(LeafContext::built);
    lemma_all_accepted(ctx);
    let folds = AggFriFoldBundle { fold_ys: c.fri_fold_ys, fold_xs: c.fri_folds };
    let deep = LeafDeepBundle { deep_ros: c.deep_ros, deep_ro_traces: c.deep_ro_traces };
    lemma_made_head(ctx, proof, kind, stmt@, c.ood);
    assert(ctx.folds_built(proof, Ok(folds)));
    assert(ctx.deep_built(proof, folds, Ok(deep)));
    lemma_made_paths(ctx, proof, (c.fri_mmcs, c.mmcs_groups));
}

/// The first step of a certificate.
proof fn lemma_made_head<
    S: LeafSystem,
    V: Fn(&FriFoldAir, &[Val], &[u8]) -> bool,
    D: Fn(&DeepRoAir, &[Val], &[u8]) -> bool,
    T: Fn(&DeepRoLeafTraceAir, &[Val], &[u8]) -> bool,
    K: Fn(&MmcsGroupPathAir, &[Val], &[u8]) -> bool,
    P: Fn(&[MmcsPathStatement], &PoseidonGroupFoldProof) -> bool,
>(
    ctx: LeafContext<S, V, D, T, K, P>,
    proof: StarkProofView,
    kind: LeafKind,
    stmt: Seq<u8>,
    o: S::Ood,
)
    requires
        ctx.head_says(proof, kind, stmt, Ok(o)),
    ensures
        stmt == sha3_256(leaf_stmt_bytes(ctx.rules, kind, proof)),
        width_allowed(ctx, kind, proof.trace_local.len()),
        call_ensures(S::ood_ok, (&ctx.system, &o), true),
        exists|n: usize| #[trigger]
            call_ensures(S::prove_ood, (&ctx.system, &proof, kind, n), Some(o)),
{
    let x = Ok::<S::Ood, LeafCertError>(o);
    let w = choose|w: Option<usize>| #[trigger]
        ctx.width_says(kind, proof.trace_local.len(), w) && match w {
            None => x == Err::<S::Ood, LeafCertError>(LeafCertError::Width),
            Some(n) => exists|p: Option<S::Ood>| #[trigger]
                call_ensures(S::prove_ood, (&ctx.system, &proof, kind, n), p) && match p {
                    None => x == Err::<S::Ood, LeafCertError>(LeafCertError::OodProve),
                    Some(q) => ctx.ood_says(q, x),
                },
        };
    let n = w->0;
    let p = choose|p: Option<S::Ood>| #[trigger]
        call_ensures(S::prove_ood, (&ctx.system, &proof, kind, n), p) && match p {
            None => x == Err::<S::Ood, LeafCertError>(LeafCertError::OodProve),
            Some(q) => ctx.ood_says(q, x),
        };
    assert(p == Some(o));
}

/// The paths of a certificate.
proof fn lemma_made_paths<
    S: LeafSystem,
    V: Fn(&FriFoldAir, &[Val], &[u8]) -> bool,
    D: Fn(&DeepRoAir, &[Val], &[u8]) -> bool,
    T: Fn(&DeepRoLeafTraceAir, &[Val], &[u8]) -> bool,
    K: Fn(&MmcsGroupPathAir, &[Val], &[u8]) -> bool,
    P: Fn(&[MmcsPathStatement], &PoseidonGroupFoldProof) -> bool,
>(
    ctx: LeafContext<S, V, D, T, K, P>,
    proof: StarkProofView,
    m: (AggFriMmcsBundle, LeafMmcsFoldGroups),
)
    requires
        ctx.mmcs_built(proof, Ok(m)),
    ensures
        m.0.val@.len() == ctx.rules.proven_queries,
        m.0.chal@.len() == ctx.rules.proven_queries,
        group_bind_outcome(
            ctx.keccak,
            ctx.poseidon,
            proof,
            m.0,
            m.1,
            proof.trace_local.len(),
            ctx.params,
            Ok(()),
        ),
{
    let x = Ok::<(AggFriMmcsBundle, LeafMmcsFoldGroups), LeafCertError>(m);
    crate::leaf_pcs_build::lemma_built_paths(ctx, proof, m);
    let r = choose|r: Result<AggFriMmcsBundle, crate::fri_mmcs_bind::MmcsError>| #[trigger]
        crate::fri_mmcs_bind::mmcs_bundle_outcome(
            proof,
            proof.trace_local.len(),
            ctx.params,
            r,
        ) && match r {
            Err(e) => x == Err::<(AggFriMmcsBundle, LeafMmcsFoldGroups), LeafCertError>(
                LeafCertError::Mmcs(e),
            ),
            Ok(b) => ctx.bundle_says(proof, b, x),
        };
    let b = r->Ok_0;
    assert(ctx.bundle_says(proof, b, x));
    let (c, g) = choose|c: AggFriMmcsBundle, g: LeafMmcsFoldGroups| #[trigger]
        crate::leaf_pcs_build::folded_as(b, c, g) && ctx.folded_says(proof, c, g, x);
    let z = choose|z: Result<(), GroupBindError>| #[trigger]
        group_bind_outcome(
            ctx.keccak,
            ctx.poseidon,
            proof,
            c,
            g,
            proof.trace_local.len(),
            ctx.params,
            z,
        ) && match z {
            Err(e) => x == Err::<(AggFriMmcsBundle, LeafMmcsFoldGroups), LeafCertError>(
                LeafCertError::GroupBind(e),
            ),
            Ok(_) => x == Ok::<(AggFriMmcsBundle, LeafMmcsFoldGroups), LeafCertError>((c, g)),
        };
    assert(z->Ok_0 == ());
    assert(z == Ok::<(), GroupBindError>(()));
}

/// A certificate of a unitary leaf of the unitary width is accepted where its shape is right and
/// every check it rests on can only return true.
pub proof fn lemma_unitary_certificate_accepted<
    S: LeafSystem,
    V: Fn(&FriFoldAir, &[Val], &[u8]) -> bool,
    D: Fn(&DeepRoAir, &[Val], &[u8]) -> bool,
    T: Fn(&DeepRoLeafTraceAir, &[Val], &[u8]) -> bool,
    K: Fn(&MmcsGroupPathAir, &[Val], &[u8]) -> bool,
    P: Fn(&[MmcsPathStatement], &PoseidonGroupFoldProof) -> bool,
>(
    ctx: LeafContext<S, V, D, T, K, P>,
    proof: StarkProofView,
    c: LeafPcsCertificate<S::Ood>,
    r: bool,
)
    requires
        ctx.verdict(proof, c, r),
        cert_shape_ok(ctx.rules, ctx.params, proof, c),
        c.kind == LeafKind::Unitary,
        1 <= proof.trace_local.len() <= 68,
        proof.trace_local.len() == ctx.rules.unitary_width,
        steps_succeed(ctx, proof, c.kind),
        forall|v: bool| #[trigger]
            call_ensures(S::ood_bound, (&ctx.system, &proof, &c.ood, c.kind), v) ==> v,
        forall|v: bool| #[trigger]
            call_ensures(
                S::folds_bound,
                (&ctx.system, &proof, &c.fri_fold_ys, &c.fri_folds, proof.trace_local.len()),
                v,
            ) ==> v,
        forall|x: Result<(), GroupBindError>| #[trigger]
            group_bind_outcome(
                ctx.keccak,
                ctx.poseidon,
                proof,
                c.fri_mmcs,
                c.mmcs_groups,
                proof.trace_local.len(),
                ctx.params,
                x,
            ) ==> x is Ok,
    ensures
        r,
{
    if !r {
        let f = choose|f: Option<usize>| #[trigger]
            ctx.checks_say(proof, c, f) && r == (f is None);
        let k = f->0;
        let says = |k: int, v: bool| ctx.check_says(proof, c, k, v);
        assert(says(k as int, false));
        lemma_check_succeeds(ctx, proof, c, k as int);
    }
}

/// No check of such a certificate fails.
proof fn lemma_check_succeeds<
    S: LeafSystem,
    V: Fn(&FriFoldAir, &[Val], &[u8]) -> bool,
    D: Fn(&DeepRoAir, &[Val], &[u8]) -> bool,
    T: Fn(&DeepRoLeafTraceAir, &[Val], &[u8]) -> bool,
    K: Fn(&MmcsGroupPathAir, &[Val], &[u8]) -> bool,
    P: Fn(&[MmcsPathStatement], &PoseidonGroupFoldProof) -> bool,
>(
    ctx: LeafContext<S, V, D, T, K, P>,
    proof: StarkProofView,
    c: LeafPcsCertificate<S::Ood>,
    k: int,
)
    requires
        0 <= k < 10,
        c.kind == LeafKind::Unitary,
        1 <= proof.trace_local.len() <= 68,
        proof.trace_local.len() == ctx.rules.unitary_width,
        steps_succeed(ctx, proof, c.kind),
        forall|v: bool| #[trigger]
            call_ensures(S::ood_bound, (&ctx.system, &proof, &c.ood, c.kind), v) ==> v,
        forall|v: bool| #[trigger]
            call_ensures(
                S::folds_bound,
                (&ctx.system, &proof, &c.fri_fold_ys, &c.fri_folds, proof.trace_local.len()),
                v,
            ) ==> v,
        forall|x: Result<(), GroupBindError>| #[trigger]
            group_bind_outcome(
                ctx.keccak,
                ctx.poseidon,
                proof,
                c.fri_mmcs,
                c.mmcs_groups,
                proof.trace_local.len(),
                ctx.params,
                x,
            ) ==> x is Ok,
    ensures
        !ctx.check_says(proof, c, k, false),
{
    if k == 3 || k == 4 {
        let axis = if k == 3 {
            FoldAxis::Y
        } else {
            FoldAxis::X
        };
        let s = if k == 3 {
            c.fri_fold_ys@
        } else {
            c.fri_folds@
        };
        assert forall|f: Option<usize>| #[trigger] ctx.folds_say(axis, s, f) implies f is None by {
            if let Some(i) = f {
                let says = |i: int, v: bool| fold_verify_outcome(ctx.fold, axis, s[i], v);
                assert(says(i as int, false));
            }
        }
    } else if k == 5 {
        let s = c.deep_ros@;
        assert forall|f: Option<usize>| #[trigger] ctx.ros_say(s, f) implies f is None by {
            if let Some(i) = f {
                let says = |i: int, v: bool| deep_ro_verify_outcome(ctx.deep, s[i], v);
                assert(says(i as int, false));
            }
        }
    } else if k == 6 {
        let s = c.deep_ro_traces@;
        assert forall|f: Option<usize>| #[trigger] ctx.traces_say(s, f) implies f is None by {
            if let Some(i) = f {
                let says = |i: int, v: bool| leaf_verify_outcome(ctx.trace, s[i], v);
                assert(says(i as int, false));
            }
        }
    }
}

/// A number before other bytes is read off in one way.
proof fn lemma_varint_prefix(n: nat, m: nat, a: Seq<u8>, b: Seq<u8>)
    requires
        varint(n) + a == varint(m) + b,
    ensures
        n == m,
        a == b,
    decreases n,
{
    let (x, y) = (varint(n) + a, varint(m) + b);
    assert(x[0] == varint(n)[0] && y[0] == varint(m)[0]);
    if n < 128 || m < 128 {
        assert(n < 128 && m < 128);
        assert(a =~= x.skip(1));
        assert(b =~= y.skip(1));
    } else {
        assert(varint(n / 128) + a =~= x.skip(1));
        assert(varint(m / 128) + b =~= y.skip(1));
        lemma_varint_prefix(n / 128, m / 128, a, b);
    }
}

/// Digests one after the other are read off in one way.
proof fn lemma_digests_read(a: Seq<[u8; 32]>, b: Seq<[u8; 32]>)
    requires
        a.len() == b.len(),
        digest_bytes(a) == digest_bytes(b),
    ensures
        a == b,
        digest_bytes(a).len() == 32 * a.len(),
    decreases a.len(),
{
    if a.len() > 0 {
        let (x, y) = (digest_bytes(a), digest_bytes(b));
        let (p, q) = (digest_bytes(a.drop_last()), digest_bytes(b.drop_last()));
        lemma_digests_len(a.drop_last());
        lemma_digests_len(b.drop_last());
        assert(p =~= x.take(p.len() as int));
        assert(q =~= y.take(q.len() as int));
        assert(a.last()@ =~= x.skip(p.len() as int));
        assert(b.last()@ =~= y.skip(q.len() as int));
        lemma_digests_read(a.drop_last(), b.drop_last());
        assert(a.last() == b.last()) by {
            assert(a.last()@ == b.last()@);
            vstd::array::axiom_array_ext_equal(a.last(), b.last());
        }
        assert(a =~= a.drop_last().push(a.last()));
        assert(b =~= b.drop_last().push(b.last()));
    } else {
        assert(a =~= b);
    }
}

proof fn lemma_digests_len(a: Seq<[u8; 32]>)
    ensures
        digest_bytes(a).len() == 32 * a.len(),
    decreases a.len(),
{
    if a.len() > 0 {
        lemma_digests_len(a.drop_last());
    }
}

/// What is hashed for the statement of a leaf: the tag of its kind first. Leaves with the same
/// bytes have the same tag and the same trace commitment.
pub proof fn lemma_statement_binds(
    rules: LeafRules,
    k1: LeafKind,
    p1: StarkProofView,
    k2: LeafKind,
    p2: StarkProofView,
)
    ensures
        leaf_stmt_bytes(rules, LeafKind::Unitary, p1)[0] == rules.unitary_tag,
        leaf_stmt_bytes(rules, LeafKind::Born, p1)[0] == rules.born_tag,
        leaf_stmt_bytes(rules, LeafKind::TrajMarginal, p1)[0] == rules.traj_marginal_tag,
        leaf_stmt_bytes(rules, LeafKind::ShotSampling, p1)[0] == rules.shot_sampling_tag,
        leaf_stmt_bytes(rules, k1, p1) == leaf_stmt_bytes(rules, k2, p2) ==> {
            &&& leaf_stmt_bytes(rules, k1, p1)[0] == leaf_stmt_bytes(rules, k2, p2)[0]
            &&& p1.trace_commitment@ == p2.trace_commitment@
        },
{
    let (x, y) = (leaf_stmt_bytes(rules, k1, p1), leaf_stmt_bytes(rules, k2, p2));
    if x == y {
        let (a, b) = (p1.trace_commitment@, p2.trace_commitment@);
        assert(varint(a.len()) + digest_bytes(a) =~= x.skip(1));
        assert(varint(b.len()) + digest_bytes(b) =~= y.skip(1));
        lemma_varint_prefix(a.len(), b.len(), digest_bytes(a), digest_bytes(b));
        lemma_digests_read(a, b);
    }
}

/// A value opening is complete: a path of each kind as long as it says, and none empty.
pub open spec fn val_complete(v: FriValMmcsQueryProof) -> bool {
    &&& v.trace_siblings@.len() >= 1
    &&& v.quot_siblings@.len() >= 1
    &&& v.trace_path.depth == v.trace_siblings@.len()
    &&& v.quot_batch is None ==> v.quot_path.depth == v.quot_siblings@.len()
}

/// A folding opening is complete: a position, siblings and a path for each round, the path as
/// long as it says and none empty.
pub open spec fn chal_complete(v: FriChalMmcsQueryProof) -> bool {
    let n = v.commit_paths@.len();
    &&& v.first_layer.siblings@.len() >= 1
    &&& v.commit_siblings@.len() == n
    &&& v.commit_indices@.len() == n
    &&& forall|i: int|
        0 <= i < n ==> (#[trigger] v.commit_paths@[i]).depth == v.commit_siblings@[i]@.len()
    &&& forall|i: int| 0 <= i < n ==> (#[trigger] v.commit_siblings@[i])@.len() >= 1
}

/// An accepted certificate is complete: an opening of each kind for every proven query, each
/// complete; as many reductions of both kinds, or none where the leaf has several quotient
/// chunks; and the first trace path once more.
pub proof fn lemma_accepted_shape<
    S: LeafSystem,
    V: Fn(&FriFoldAir, &[Val], &[u8]) -> bool,
    D: Fn(&DeepRoAir, &[Val], &[u8]) -> bool,
    T: Fn(&DeepRoLeafTraceAir, &[Val], &[u8]) -> bool,
    K: Fn(&MmcsGroupPathAir, &[Val], &[u8]) -> bool,
    P: Fn(&[MmcsPathStatement], &PoseidonGroupFoldProof) -> bool,
>(
    ctx: LeafContext<S, V, D, T, K, P>,
    proof: StarkProofView,
    c: LeafPcsCertificate<S::Ood>,
)
    requires
        ctx.verdict(proof, c, true),
    ensures
        ({
            let n = ctx.rules.proven_queries as int;
            &&& c.fri_mmcs.val@.len() == n
            &&& c.fri_mmcs.chal@.len() == n
            &&& forall|q: int| 0 <= q < n ==> val_complete(#[trigger] c.fri_mmcs.val@[q])
            &&& forall|q: int| 0 <= q < n ==> chal_complete(#[trigger] c.fri_mmcs.chal@[q])
            &&& c.deep_ros@.len() == c.deep_ro_traces@.len()
            &&& c.deep_ros@.len() == n || (c.deep_ros@.len() == 0 && proof.quotient_chunks@.len()
                > 1)
            &&& c.merkle_fold.depth == c.fri_mmcs.val@[0].trace_path.depth
            &&& c.merkle_fold.leaf_width == c.fri_mmcs.val@[0].trace_path.leaf_width
            &&& c.merkle_fold.leaf_digest == c.fri_mmcs.val@[0].trace_path.leaf_digest
            &&& c.merkle_fold.layer_digests@ == c.fri_mmcs.val@[0].trace_path.layer_digests@
            &&& c.merkle_fold.fold_stark@ == c.fri_mmcs.val@[0].trace_path.fold_stark@
        }),
{
    let n = ctx.rules.proven_queries as int;
    assert(cert_shape_ok(ctx.rules, ctx.params, proof, c));
    assert forall|q: int| 0 <= q < n implies val_complete(#[trigger] c.fri_mmcs.val@[q]) by {
        assert(val_shape_ok(c.fri_mmcs.val@[q]));
    }
    assert forall|q: int| 0 <= q < n implies chal_complete(#[trigger] c.fri_mmcs.chal@[q]) by {
        let v = c.fri_mmcs.chal@[q];
        assert(chal_shape_ok(v));
        assert forall|i: int| 0 <= i < v.commit_paths@.len() implies (
        #[trigger] v.commit_siblings@[i])@.len() >= 1 by {
            assert(v.commit_paths@[i].depth == v.commit_siblings@[i]@.len());
        }
    }
}

/// The openings of an accepted certificate lead to the commitments of its leaf, every one of
/// them, at the positions drawn for the leaf.
pub proof fn lemma_certificate_paths_lead<
    S: LeafSystem,
    V: Fn(&FriFoldAir, &[Val], &[u8]) -> bool,
    D: Fn(&DeepRoAir, &[Val], &[u8]) -> bool,
    T: Fn(&DeepRoLeafTraceAir, &[Val], &[u8]) -> bool,
    K: Fn(&MmcsGroupPathAir, &[Val], &[u8]) -> bool,
    P: Fn(&[MmcsPathStatement], &PoseidonGroupFoldProof) -> bool,
>(
    ctx: LeafContext<S, V, D, T, K, P>,
    proof: StarkProofView,
    c: LeafPcsCertificate<S::Ood>,
)
    requires
        ctx.verdict(proof, c, true),
    ensures
        proof.opening_proof.fri_proof.query_proofs@.len() == ctx.rules.proven_queries,
        exists|chal: AggFriChallenges|
            {
                &&& #[trigger] is_replay(chal, proof, ctx.params)
                &&& forall|q: int|
                    0 <= q < c.fri_mmcs.val@.len() ==> val_leads(
                        proof,
                        chal,
                        proof.trace_local.len(),
                        q,
                        #[trigger] c.fri_mmcs.val@[q],
                    )
                &&& forall|q: int|
                    0 <= q < c.fri_mmcs.chal@.len() ==> #[trigger] chal_leads(proof, chal, q)
            },
{
    lemma_accepted_certificate(ctx, proof, c);
    lemma_grouped_bundle_bound(
        ctx.keccak,
        ctx.poseidon,
        proof,
        c.fri_mmcs,
        c.mmcs_groups,
        proof.trace_local.len(),
        ctx.params,
    );
}

} // verus!
