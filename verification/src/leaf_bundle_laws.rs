//! What the certificates of a leaf stand for: every proof that its frames hold, each one once and
//! in order.
use vstd::prelude::*;

use crate::checks::in_turn;
use crate::child_binding::{sha3_256, ChildMarkers, TrajectoryFrames};
use crate::child_binding_laws::{
    is_list, lemma_frame_read, lemma_list_read, lemma_unmarked, marginal_frames, unmarked,
    FrameParts,
};
use crate::deep_ro_air::DeepRoAir;
use crate::deep_ro_leaf_trace_air::DeepRoLeafTraceAir;
use crate::field::Val;
use crate::framing::FrameError;
use crate::fri_fold_air::FriFoldAir;
use crate::fri_mmcs_group_m4b::{MmcsGroupPathAir, MmcsPathStatement};
use crate::leaf_bundle::{
    leaf_payloads, marginal_run, statements_of, LeafBundleError, LeafFrames, LeafPcsBundle,
};
use crate::leaf_cert_laws::{cert_shows, lemma_accepted_certificate, lemma_made_certificate};
use crate::leaf_pcs_cert::{LeafContext, LeafPcsCertificate, LeafSystem};
use crate::leaf_stmt::{digest_bytes, leaf_stmt_bytes, LeafKind};
use crate::mmcs_group_fold::PoseidonGroupFoldProof;
use crate::pcs_view::StarkProofView;

verus! {

/// A trajectory leaf of these parts: a counted list of marginal frames with three texts each and
/// nothing behind it, and a shot frame with a text and 20 bytes of fields.
pub open spec fn is_trajectory(
    t: TrajectoryFrames,
    m: ChildMarkers,
    marginals: Seq<FrameParts>,
    shot: FrameParts,
) -> bool {
    &&& is_list(t.marginals@, marginal_frames(marginals, m.traj_marginal@), Seq::empty())
    &&& forall|i: int|
        0 <= i < marginals.len() ==> {
            &&& (#[trigger] marginals[i]).ok(m.traj_marginal@)
            &&& marginals[i].texts.len() == 3
            &&& marginals[i].fields.len() == 0
        }
    &&& t.shot@ == shot.bytes(m.traj_shot@)
    &&& shot.ok(m.traj_shot@)
    &&& shot.texts.len() == 1
    &&& shot.fields.len() == 20
}

/// The payloads that are read of a leaf.
pub open spec fn reads(
    f: LeafFrames,
    m: ChildMarkers,
    n: nat,
    kind: spec_fn(int) -> LeafKind,
    payload: spec_fn(int) -> Seq<u8>,
) -> bool {
    leaf_payloads(f, m) matches Ok(ps) && {
        &&& ps.len() == n
        &&& forall|i: int|
            0 <= i < n ==> (#[trigger] ps[i]).0 == kind(i) && ps[i].1 == payload(i)
    }
}

/// The kinds of the proofs of a trajectory with `n` marginal frames.
pub open spec fn trajectory_kind(n: nat) -> spec_fn(int) -> LeafKind {
    |i: int| if i < n {
        LeafKind::TrajMarginal
    } else {
        LeafKind::ShotSampling
    }
}

/// The proof payloads of a trajectory.
pub open spec fn trajectory_payload_at(
    marginals: Seq<FrameParts>,
    shot: FrameParts,
) -> spec_fn(int) -> Seq<u8> {
    |i: int| if i < marginals.len() {
        marginals[i].payload
    } else {
        shot.payload
    }
}

/// The payloads of the first marginal frames.
proof fn lemma_run_of(marginals: Seq<FrameParts>, marker: Seq<u8>, n: nat)
    requires
        n <= marginals.len(),
        forall|i: int|
            0 <= i < marginals.len() ==> {
                &&& (#[trigger] marginals[i]).ok(marker)
                &&& marginals[i].texts.len() == 3
                &&& marginals[i].fields.len() == 0
            },
    ensures
        marginal_run(marginal_frames(marginals, marker), marker, n) == Ok::<
            Seq<(LeafKind, Seq<u8>)>,
            LeafBundleError,
        >(Seq::new(n, |i: int| (LeafKind::TrajMarginal, marginals[i].payload))),
    decreases n,
{
    let want = Seq::new(n, |i: int| (LeafKind::TrajMarginal, marginals[i].payload));
    if n == 0 {
        assert(want =~= Seq::<(LeafKind, Seq<u8>)>::empty());
    } else {
        let k = (n - 1) as nat;
        lemma_run_of(marginals, marker, k);
        assert(marginals[k as int].ok(marker));
        lemma_frame_read(marginals[k as int], marker);
        let before = Seq::new(k, |i: int| (LeafKind::TrajMarginal, marginals[i].payload));
        assert(before.push((LeafKind::TrajMarginal, marginals[k as int].payload)) =~= want);
    }
}

/// Of a trajectory leaf every marginal payload is read, in order, and then the shot payload.
pub proof fn lemma_trajectory_read(
    t: TrajectoryFrames,
    m: ChildMarkers,
    marginals: Seq<FrameParts>,
    shot: FrameParts,
)
    requires
        is_trajectory(t, m, marginals, shot),
    ensures
        reads(
            LeafFrames::Trajectory(Some(t)),
            m,
            marginals.len() + 1,
            trajectory_kind(marginals.len()),
            trajectory_payload_at(marginals, shot),
        ),
{
    let marker = m.traj_marginal@;
    let frames = marginal_frames(marginals, marker);
    lemma_list_read(t.marginals@, frames, Seq::empty());
    lemma_run_of(marginals, marker, marginals.len());
    lemma_frame_read(shot, m.traj_shot@);
}

/// Of a Born leaf the one payload past two texts is read, of a unitary leaf all of it; a leaf
/// without the part that carries its proofs has none to read, nor has one without its marker.
pub proof fn lemma_other_leaf_read(m: ChildMarkers, v: Vec<u8>, parts: FrameParts)
    ensures
        v@ == parts.bytes(m.born@) && parts.ok(m.born@) && parts.texts.len() == 2
            && parts.fields.len() == 0 ==> reads(
            LeafFrames::Born(Some(v)),
            m,
            1,
            |i: int| LeafKind::Born,
            |i: int| parts.payload,
        ),
        reads(
            LeafFrames::Unitary(Some(v)),
            m,
            1,
            |i: int| LeafKind::Unitary,
            |i: int| v@,
        ),
        unmarked(Some(v), m.born@) ==> leaf_payloads(LeafFrames::Born(Some(v)), m) is Err,
        leaf_payloads(LeafFrames::Trajectory(None), m) == Err::<
            Seq<(LeafKind, Seq<u8>)>,
            LeafBundleError,
        >(LeafBundleError::Wrapper),
        leaf_payloads(LeafFrames::Born(None), m) == Err::<
            Seq<(LeafKind, Seq<u8>)>,
            LeafBundleError,
        >(LeafBundleError::Wrapper),
        leaf_payloads(LeafFrames::Unitary(None), m) == Err::<
            Seq<(LeafKind, Seq<u8>)>,
            LeafBundleError,
        >(LeafBundleError::Wrapper),
{
    if v@ == parts.bytes(m.born@) && parts.ok(m.born@) && parts.texts.len() == 2
        && parts.fields.len() == 0 {
        lemma_frame_read(parts, m.born@);
    }
    if unmarked(Some(v), m.born@) {
        lemma_unmarked(Some(v), m.born@, 2, 0);
    }
}

/// More bytes behind the list of marginal frames are refused.
pub proof fn lemma_trailing_refused(
    t: TrajectoryFrames,
    m: ChildMarkers,
    frames: Seq<Seq<u8>>,
    more: Seq<u8>,
)
    requires
        is_list(t.marginals@, frames, more),
        more.len() > 0,
    ensures
        leaf_payloads(LeafFrames::Trajectory(Some(t)), m) == Err::<
            Seq<(LeafKind, Seq<u8>)>,
            LeafBundleError,
        >(LeafBundleError::Frame(FrameError::Trailing)),
{
    lemma_list_read(t.marginals@, frames, more);
}

/// A payload may be read as a proof that a certificate shows.
pub open spec fn certified<
    S: LeafSystem,
    V: Fn(&FriFoldAir, &[Val], &[u8]) -> bool,
    D: Fn(&DeepRoAir, &[Val], &[u8]) -> bool,
    T: Fn(&DeepRoLeafTraceAir, &[Val], &[u8]) -> bool,
    K: Fn(&MmcsGroupPathAir, &[Val], &[u8]) -> bool,
    P: Fn(&[MmcsPathStatement], &PoseidonGroupFoldProof) -> bool,
>(
    ctx: LeafContext<S, V, D, T, K, P>,
    payload: Seq<u8>,
    c: LeafPcsCertificate<S::Ood>,
) -> bool {
    exists|b: &[u8], v: StarkProofView| #[trigger]
        call_ensures(S::decode, (&ctx.system, b), Some(v)) && b@ == payload && cert_shows(
            ctx,
            v,
            c,
        )
}

/// Accepted certificates: as many as there are payloads, each showing the proof at its place; in
/// a trajectory each has the kind of its proof.
pub proof fn lemma_bundle_accepted<
    S: LeafSystem,
    V: Fn(&FriFoldAir, &[Val], &[u8]) -> bool,
    D: Fn(&DeepRoAir, &[Val], &[u8]) -> bool,
    T: Fn(&DeepRoLeafTraceAir, &[Val], &[u8]) -> bool,
    K: Fn(&MmcsGroupPathAir, &[Val], &[u8]) -> bool,
    P: Fn(&[MmcsPathStatement], &PoseidonGroupFoldProof) -> bool,
>(
    ctx: LeafContext<S, V, D, T, K, P>,
    f: LeafFrames,
    m: ChildMarkers,
    n: nat,
    kind: spec_fn(int) -> LeafKind,
    payload: spec_fn(int) -> Seq<u8>,
    certs: Seq<LeafPcsCertificate<S::Ood>>,
)
    requires
        reads(f, m, n, kind, payload),
        ctx.bundle_verdict(f, m, certs, Ok(())),
    ensures
        certs.len() == n,
        forall|i: int| 0 <= i < n ==> certified(ctx, payload(i), #[trigger] certs[i]),
        f is Trajectory ==> forall|i: int|
            0 <= i < n ==> (#[trigger] certs[i]).kind == kind(i),
{
    let ps = leaf_payloads(f, m)->Ok_0;
    let step = |i: int, x: Result<(), LeafBundleError>|
        ctx.cert_step(f is Trajectory, ps[i], certs[i], x);
    assert(in_turn(ps.len(), step, Ok(())));
    assert forall|i: int| 0 <= i < n implies {
        &&& certified(ctx, payload(i), #[trigger] certs[i])
        &&& f is Trajectory ==> certs[i].kind == kind(i)
    } by {
        assert(step(i, Ok(())));
        assert(ps[i].1 == payload(i));
        lemma_step_certified(ctx, f is Trajectory, ps[i], certs[i]);
    }
}

/// One certificate.
proof fn lemma_step_certified<
    S: LeafSystem,
    V: Fn(&FriFoldAir, &[Val], &[u8]) -> bool,
    D: Fn(&DeepRoAir, &[Val], &[u8]) -> bool,
    T: Fn(&DeepRoLeafTraceAir, &[Val], &[u8]) -> bool,
    K: Fn(&MmcsGroupPathAir, &[Val], &[u8]) -> bool,
    P: Fn(&[MmcsPathStatement], &PoseidonGroupFoldProof) -> bool,
>(
    ctx: LeafContext<S, V, D, T, K, P>,
    trajectory: bool,
    p: (LeafKind, Seq<u8>),
    c: LeafPcsCertificate<S::Ood>,
)
    requires
        ctx.cert_step(trajectory, p, c, Ok(())),
    ensures
        certified(ctx, p.1, c),
        trajectory ==> c.kind == p.0,
{
    let x = Ok::<(), LeafBundleError>(());
    let d = choose|d: Option<StarkProofView>| #[trigger]
        ctx.decodes(p.1, d) && match d {
            None => x == Err::<(), LeafBundleError>(LeafBundleError::Decode),
            Some(v) => exists|ok: bool| #[trigger]
                ctx.verdict(v, c, ok) && x == (if ok {
                    Ok::<(), LeafBundleError>(())
                } else {
                    Err::<(), LeafBundleError>(LeafBundleError::Certificate)
                }),
        };
    let v = d->Some_0;
    assert(d == Some(v));
    assert(ctx.verdict(v, c, true));
    lemma_accepted_certificate(ctx, v, c);
    let b = choose|b: &[u8]| #[trigger]
        call_ensures(S::decode, (&ctx.system, b), d) && b@ == p.1;
    assert(call_ensures(S::decode, (&ctx.system, b), Some(v)));
}

/// Accepted certificates of a trajectory leaf: one for every marginal proof, in order, and one
/// for the shot proof.
pub proof fn lemma_trajectory_accepted<
    S: LeafSystem,
    V: Fn(&FriFoldAir, &[Val], &[u8]) -> bool,
    D: Fn(&DeepRoAir, &[Val], &[u8]) -> bool,
    T: Fn(&DeepRoLeafTraceAir, &[Val], &[u8]) -> bool,
    K: Fn(&MmcsGroupPathAir, &[Val], &[u8]) -> bool,
    P: Fn(&[MmcsPathStatement], &PoseidonGroupFoldProof) -> bool,
>(
    ctx: LeafContext<S, V, D, T, K, P>,
    t: TrajectoryFrames,
    m: ChildMarkers,
    marginals: Seq<FrameParts>,
    shot: FrameParts,
    certs: Seq<LeafPcsCertificate<S::Ood>>,
)
    requires
        is_trajectory(t, m, marginals, shot),
        ctx.bundle_verdict(LeafFrames::Trajectory(Some(t)), m, certs, Ok(())),
    ensures
        certs.len() == marginals.len() + 1,
        forall|i: int|
            0 <= i < marginals.len() ==> (#[trigger] certs[i]).kind == LeafKind::TrajMarginal
                && certified(ctx, marginals[i].payload, certs[i]),
        certs.last().kind == LeafKind::ShotSampling,
        certified(ctx, shot.payload, certs.last()),
{
    let n = marginals.len();
    lemma_trajectory_read(t, m, marginals, shot);
    lemma_bundle_accepted(
        ctx,
        LeafFrames::Trajectory(Some(t)),
        m,
        n + 1,
        trajectory_kind(n),
        trajectory_payload_at(marginals, shot),
        certs,
    );
    assert forall|i: int| 0 <= i < n implies (#[trigger] certs[i]).kind
        == LeafKind::TrajMarginal && certified(ctx, marginals[i].payload, certs[i]) by {
        assert(certified(ctx, trajectory_payload_at(marginals, shot)(i), certs[i]));
    }
    let l = certs[n as int];
    assert(certified(ctx, trajectory_payload_at(marginals, shot)(n as int), l));
    assert(l.kind == trajectory_kind(n)(n as int));
}

/// A certificate was made of a payload: of a proof that it may be read as, under that proof's
/// statement and kind.
pub open spec fn made_for<
    S: LeafSystem,
    V: Fn(&FriFoldAir, &[Val], &[u8]) -> bool,
    D: Fn(&DeepRoAir, &[Val], &[u8]) -> bool,
    T: Fn(&DeepRoLeafTraceAir, &[Val], &[u8]) -> bool,
    K: Fn(&MmcsGroupPathAir, &[Val], &[u8]) -> bool,
    P: Fn(&[MmcsPathStatement], &PoseidonGroupFoldProof) -> bool,
>(
    ctx: LeafContext<S, V, D, T, K, P>,
    kind: LeafKind,
    payload: Seq<u8>,
    c: LeafPcsCertificate<S::Ood>,
) -> bool {
    exists|b: &[u8], v: StarkProofView|
        {
            &&& #[trigger] call_ensures(S::decode, (&ctx.system, b), Some(v))
            &&& b@ == payload
            &&& c.stmt_digest@ == sha3_256(leaf_stmt_bytes(ctx.rules, kind, v))
            &&& cert_shows(ctx, v, c)
        }
}

/// One certificate that was made.
proof fn lemma_cert_made_for<
    S: LeafSystem,
    V: Fn(&FriFoldAir, &[Val], &[u8]) -> bool,
    D: Fn(&DeepRoAir, &[Val], &[u8]) -> bool,
    T: Fn(&DeepRoLeafTraceAir, &[Val], &[u8]) -> bool,
    K: Fn(&MmcsGroupPathAir, &[Val], &[u8]) -> bool,
    P: Fn(&[MmcsPathStatement], &PoseidonGroupFoldProof) -> bool,
>(
    ctx: LeafContext<S, V, D, T, K, P>,
    p: (LeafKind, Seq<u8>),
    c: LeafPcsCertificate<S::Ood>,
)
    requires
        ctx.cert_made(p, Ok(c)),
    ensures
        c.kind == p.0,
        made_for(ctx, p.0, p.1, c),
{
    let x = Ok::<LeafPcsCertificate<S::Ood>, LeafBundleError>(c);
    let d = choose|d: Option<StarkProofView>| #[trigger]
        ctx.decodes(p.1, d) && match d {
            None => x == Err::<LeafPcsCertificate<S::Ood>, LeafBundleError>(
                LeafBundleError::Decode,
            ),
            Some(v) => ctx.made_of(v, p.0, x),
        };
    let v = d->Some_0;
    assert(d == Some(v));
    let stmt = choose|stmt: [u8; 32]| #[trigger]
        ctx.is_stmt(v, p.0, stmt) && ctx.built(v, p.0, stmt, Ok(c));
    lemma_made_certificate(ctx, v, p.0, stmt, c);
    let b = choose|b: &[u8]| #[trigger]
        call_ensures(S::decode, (&ctx.system, b), d) && b@ == p.1;
    assert(call_ensures(S::decode, (&ctx.system, b), Some(v)));
}

/// Certificates that are made of a leaf: one for every payload, in order, of its kind and with
/// the statement of its proof; and they are accepted.
pub proof fn lemma_bundle_made<
    S: LeafSystem,
    V: Fn(&FriFoldAir, &[Val], &[u8]) -> bool,
    D: Fn(&DeepRoAir, &[Val], &[u8]) -> bool,
    T: Fn(&DeepRoLeafTraceAir, &[Val], &[u8]) -> bool,
    K: Fn(&MmcsGroupPathAir, &[Val], &[u8]) -> bool,
    P: Fn(&[MmcsPathStatement], &PoseidonGroupFoldProof) -> bool,
>(
    ctx: LeafContext<S, V, D, T, K, P>,
    f: LeafFrames,
    m: ChildMarkers,
    n: nat,
    kind: spec_fn(int) -> LeafKind,
    payload: spec_fn(int) -> Seq<u8>,
    b: LeafPcsBundle<S::Ood>,
)
    requires
        reads(f, m, n, kind, payload),
        ctx.bundle_built(f, m, Ok(b)),
    ensures
        b.certs@.len() == n,
        forall|i: int|
            0 <= i < n ==> {
                &&& (#[trigger] b.certs@[i]).kind == kind(i)
                &&& made_for(ctx, kind(i), payload(i), b.certs@[i])
                &&& certified(ctx, payload(i), b.certs@[i])
            },
        ctx.bundle_verdict(f, m, b.certs@, Ok(())),
{
    let ps = leaf_payloads(f, m)->Ok_0;
    lemma_bundle_accepted(ctx, f, m, n, kind, payload, b.certs@);
    assert forall|i: int| 0 <= i < n implies {
        &&& (#[trigger] b.certs@[i]).kind == kind(i)
        &&& made_for(ctx, kind(i), payload(i), b.certs@[i])
        &&& certified(ctx, payload(i), b.certs@[i])
    } by {
        assert(ctx.cert_made(ps[i], Ok(b.certs@[i])));
        lemma_cert_made_for(ctx, ps[i], b.certs@[i]);
        assert(ps[i].0 == kind(i) && ps[i].1 == payload(i));
        assert(certified(ctx, payload(i), b.certs@[i]));
    }
}

/// A leaf whose payloads cannot be read has no certificates, and none are accepted for it.
pub proof fn lemma_unread_leaf_refused<
    S: LeafSystem,
    V: Fn(&FriFoldAir, &[Val], &[u8]) -> bool,
    D: Fn(&DeepRoAir, &[Val], &[u8]) -> bool,
    T: Fn(&DeepRoLeafTraceAir, &[Val], &[u8]) -> bool,
    K: Fn(&MmcsGroupPathAir, &[Val], &[u8]) -> bool,
    P: Fn(&[MmcsPathStatement], &PoseidonGroupFoldProof) -> bool,
>(
    ctx: LeafContext<S, V, D, T, K, P>,
    f: LeafFrames,
    m: ChildMarkers,
    e: LeafBundleError,
    certs: Seq<LeafPcsCertificate<S::Ood>>,
    r: Result<(), LeafBundleError>,
    b: Result<LeafPcsBundle<S::Ood>, LeafBundleError>,
)
    requires
        leaf_payloads(f, m) == Err::<Seq<(LeafKind, Seq<u8>)>, LeafBundleError>(e),
        ctx.bundle_verdict(f, m, certs, r),
        ctx.bundle_built(f, m, b),
    ensures
        r == Err::<(), LeafBundleError>(e),
        b == Err::<LeafPcsBundle<S::Ood>, LeafBundleError>(e),
{
}

/// More or fewer certificates than payloads are refused, with both counts.
pub proof fn lemma_other_count_refused<
    S: LeafSystem,
    V: Fn(&FriFoldAir, &[Val], &[u8]) -> bool,
    D: Fn(&DeepRoAir, &[Val], &[u8]) -> bool,
    T: Fn(&DeepRoLeafTraceAir, &[Val], &[u8]) -> bool,
    K: Fn(&MmcsGroupPathAir, &[Val], &[u8]) -> bool,
    P: Fn(&[MmcsPathStatement], &PoseidonGroupFoldProof) -> bool,
>(
    ctx: LeafContext<S, V, D, T, K, P>,
    f: LeafFrames,
    m: ChildMarkers,
    n: nat,
    kind: spec_fn(int) -> LeafKind,
    payload: spec_fn(int) -> Seq<u8>,
    certs: Seq<LeafPcsCertificate<S::Ood>>,
    r: Result<(), LeafBundleError>,
)
    requires
        reads(f, m, n, kind, payload),
        certs.len() != n,
        ctx.bundle_verdict(f, m, certs, r),
    ensures
        r == Err::<(), LeafBundleError>(
            LeafBundleError::Count(certs.len() as usize, n as usize),
        ),
{
}

/// What is hashed for the statement of a bundle: the statements of its certificates, 32 bytes
/// each, in order.
pub proof fn lemma_bundle_statement<O>(certs: Seq<LeafPcsCertificate<O>>)
    ensures
        digest_bytes(statements_of(certs)).len() == 32 * certs.len(),
        forall|i: int, j: int|
            0 <= i < certs.len() && 0 <= j < 32 ==> digest_bytes(statements_of(certs))[32 * i + j]
                == #[trigger] certs[i].stmt_digest@[j],
    decreases certs.len(),
{
    let all = statements_of(certs);
    if certs.len() > 0 {
        let rest = certs.drop_last();
        lemma_bundle_statement(rest);
        assert(all.drop_last() =~= statements_of(rest));
        let d = digest_bytes(all);
        let e = digest_bytes(statements_of(rest));
        assert(d == e + all.last()@);
        assert forall|i: int, j: int| 0 <= i < certs.len() && 0 <= j < 32 implies d[32 * i + j]
            == #[trigger] certs[i].stmt_digest@[j] by {
            if i < rest.len() {
                assert(rest[i] == certs[i]);
                assert(e[32 * i + j] == rest[i].stmt_digest@[j]);
            }
        }
    }
}

} // verus!
