//! The certificates of every proof a leaf carries.
use vstd::prelude::*;

use crate::checks::{in_turn, lemma_turn_fails};
use crate::child_binding::{sha3_256, ChildMarkers, TrajectoryFrames};
use crate::deep_ro_air::DeepRoAir;
use crate::deep_ro_leaf_trace_air::DeepRoLeafTraceAir;
use crate::field::Val;
use crate::framing::{byte_lists, frame_payload, payload_list, read_frame, read_payload_list, FrameError};
use crate::fri_fold_air::FriFoldAir;
use crate::fri_mmcs_group_m4b::{MmcsGroupPathAir, MmcsPathStatement};
use crate::leaf_pcs_build::build_leaf_pcs_certificate;
use crate::leaf_pcs_cert::{
    verify_leaf_pcs_certificate, LeafCertError, LeafContext, LeafPcsCertificate, LeafSystem,
};
use crate::leaf_stmt::{digest_bytes, hash_digests, leaf_stmt_bytes, leaf_stmt_digest, LeafKind};
use crate::mmcs_group_fold::PoseidonGroupFoldProof;
use crate::pcs_view::StarkProofView;

verus! {

/// The certificates of a leaf.
#[derive(Debug, Clone)]
pub struct LeafPcsBundle<O> {
    pub certs: Vec<LeafPcsCertificate<O>>,
}

/// The parts of a leaf that carry its proofs, where they could be found.
#[derive(Debug, Clone)]
pub enum LeafFrames {
    Trajectory(Option<TrajectoryFrames>),
    /// The inner proof of a Born leaf.
    Born(Option<Vec<u8>>),
    /// The proof payload of a unitary leaf.
    Unitary(Option<Vec<u8>>),
}

/// Why a leaf's certificates were not made or do not hold.
#[derive(Debug, Clone, PartialEq, Eq)]
pub enum LeafBundleError {
    /// The part that carries the proofs is missing.
    Wrapper,
    Frame(FrameError),
    /// The number of certificates and of proofs.
    Count(usize, usize),
    /// The kind of a certificate and of its proof.
    Kind(LeafKind, LeafKind),
    Decode,
    /// A certificate does not hold.
    Certificate,
    Build(LeafCertError),
}

/// The proof payloads of the first `n` marginal frames.
pub open spec fn marginal_run(frames: Seq<Seq<u8>>, marker: Seq<u8>, n: nat) -> Result<
    Seq<(LeafKind, Seq<u8>)>,
    LeafBundleError,
>
    decreases n,
{
    if n == 0 {
        Ok(Seq::empty())
    } else {
        match marginal_run(frames, marker, (n - 1) as nat) {
            Err(e) => Err(e),
            Ok(s) => match frame_payload(frames[n - 1], marker, 3, 0) {
                Err(e) => Err(LeafBundleError::Frame(e)),
                Ok(p) => Ok(s.push((LeafKind::TrajMarginal, p))),
            },
        }
    }
}

/// The proof payloads of a trajectory leaf: every marginal one, then the shot one.
pub open spec fn trajectory_payloads(t: TrajectoryFrames, m: ChildMarkers) -> Result<
    Seq<(LeafKind, Seq<u8>)>,
    LeafBundleError,
> {
    match payload_list(t.marginals@, true) {
        Err(e) => Err(LeafBundleError::Frame(e)),
        Ok(frames) => match marginal_run(frames, m.traj_marginal@, frames.len()) {
            Err(e) => Err(e),
            Ok(s) => match frame_payload(t.shot@, m.traj_shot@, 1, 20) {
                Err(e) => Err(LeafBundleError::Frame(e)),
                Ok(p) => Ok(s.push((LeafKind::ShotSampling, p))),
            },
        },
    }
}

/// The proof payloads of a leaf, each with its kind.
pub open spec fn leaf_payloads(f: LeafFrames, m: ChildMarkers) -> Result<
    Seq<(LeafKind, Seq<u8>)>,
    LeafBundleError,
> {
    match f {
        LeafFrames::Trajectory(None) => Err(LeafBundleError::Wrapper),
        LeafFrames::Trajectory(Some(t)) => trajectory_payloads(t, m),
        LeafFrames::Born(None) => Err(LeafBundleError::Wrapper),
        LeafFrames::Born(Some(b)) => match frame_payload(b@, m.born@, 2, 0) {
            Err(e) => Err(LeafBundleError::Frame(e)),
            Ok(p) => Ok(seq![(LeafKind::Born, p)]),
        },
        LeafFrames::Unitary(None) => Err(LeafBundleError::Wrapper),
        LeafFrames::Unitary(Some(p)) => Ok(seq![(LeafKind::Unitary, p@)]),
    }
}

/// The views of a list of payloads.
pub open spec fn payload_views(s: Seq<(LeafKind, Vec<u8>)>) -> Seq<(LeafKind, Seq<u8>)> {
    Seq::new(s.len(), |i: int| (s[i].0, s[i].1@))
}

/// `r` is the outcome `want`.
pub open spec fn payloads_read(
    r: Result<Vec<(LeafKind, Vec<u8>)>, LeafBundleError>,
    want: Result<Seq<(LeafKind, Seq<u8>)>, LeafBundleError>,
) -> bool {
    match want {
        Ok(s) => r matches Ok(v) && payload_views(v@) == s,
        Err(e) => r == Err::<Vec<(LeafKind, Vec<u8>)>, LeafBundleError>(e),
    }
}

/// Once a marginal frame fails the list does.
proof fn lemma_run_ends(frames: Seq<Seq<u8>>, marker: Seq<u8>, a: nat, b: nat)
    requires
        a <= b,
        marginal_run(frames, marker, a) is Err,
    ensures
        marginal_run(frames, marker, b) == marginal_run(frames, marker, a),
    decreases b,
{
    if a < b {
        lemma_run_ends(frames, marker, a, (b - 1) as nat);
    }
}

fn read_trajectory_payloads(t: &TrajectoryFrames, m: &ChildMarkers) -> (r: Result<
    Vec<(LeafKind, Vec<u8>)>,
    LeafBundleError,
>)
    ensures
        payloads_read(r, trajectory_payloads(*t, *m)),
{
    let frames = match read_payload_list(t.marginals.as_slice(), true) {
        Ok(v) => v,
        Err(e) => {
            return Err(LeafBundleError::Frame(e));
        },
    };
    let ghost lists = byte_lists(frames@);
    let mut out: Vec<(LeafKind, Vec<u8>)> = Vec::new();
    let mut i: usize = 0;
    proof {
        assert(payload_views(out@) =~= Seq::<(LeafKind, Seq<u8>)>::empty());
    }
    while i < frames.len()
        invariant
            i <= frames.len(),
            lists == byte_lists(frames@),
            payload_list(t.marginals@, true) == Ok::<Seq<Seq<u8>>, FrameError>(lists),
            marginal_run(lists, m.traj_marginal@, i as nat) == Ok::<
                Seq<(LeafKind, Seq<u8>)>,
                LeafBundleError,
            >(payload_views(out@)),
        decreases frames.len() - i,
    {
        let ghost before = out@;
        match read_frame(frames[i].as_slice(), m.traj_marginal.as_slice(), 3, 0) {
            Ok(p) => {
                out.push((LeafKind::TrajMarginal, p));
                proof {
                    assert(payload_views(out@) =~= payload_views(before).push(
                        (LeafKind::TrajMarginal, p@),
                    ));
                }
            },
            Err(e) => {
                proof {
                    lemma_run_ends(lists, m.traj_marginal@, (i + 1) as nat, frames@.len());
                }
                return Err(LeafBundleError::Frame(e));
            },
        }
        i += 1;
    }
    let ghost before = out@;
    match read_frame(t.shot.as_slice(), m.traj_shot.as_slice(), 1, 20) {
        Ok(p) => {
            out.push((LeafKind::ShotSampling, p));
            proof {
                assert(payload_views(out@) =~= payload_views(before).push(
                    (LeafKind::ShotSampling, p@),
                ));
            }
            Ok(out)
        },
        Err(e) => Err(LeafBundleError::Frame(e)),
    }
}

/// Reads the proof payloads of a leaf, each with its kind.
pub fn read_leaf_payloads(f: &LeafFrames, m: &ChildMarkers) -> (r: Result<
    Vec<(LeafKind, Vec<u8>)>,
    LeafBundleError,
>)
    ensures
        payloads_read(r, leaf_payloads(*f, *m)),
{
    match f {
        LeafFrames::Trajectory(t) => match t {
            Some(t) => read_trajectory_payloads(t, m),
            None => Err(LeafBundleError::Wrapper),
        },
        LeafFrames::Born(b) => match b {
            Some(b) => match read_frame(b.as_slice(), m.born.as_slice(), 2, 0) {
                Ok(p) => {
                    let mut out: Vec<(LeafKind, Vec<u8>)> = Vec::new();
                    let ghost pv = p@;
                    out.push((LeafKind::Born, p));
                    proof {
                        assert(payload_views(out@) =~= seq![(LeafKind::Born, pv)]);
                    }
                    Ok(out)
                },
                Err(e) => Err(LeafBundleError::Frame(e)),
            },
            None => Err(LeafBundleError::Wrapper),
        },
        LeafFrames::Unitary(p) => match p {
            Some(p) => {
                let mut out: Vec<(LeafKind, Vec<u8>)> = Vec::new();
                out.push((LeafKind::Unitary, crate::leaf_stmt::copy_bytes(p)));
                proof {
                    assert(payload_views(out@) =~= seq![(LeafKind::Unitary, p@)]);
                }
                Ok(out)
            },
            None => Err(LeafBundleError::Wrapper),
        },
    }
}

/// The statements of a list of certificates.
pub open spec fn statements_of<O>(s: Seq<LeafPcsCertificate<O>>) -> Seq<[u8; 32]> {
    Seq::new(s.len(), |i: int| s[i].stmt_digest)
}

/// The hash of the statements of a bundle, one after the other.
pub fn leaf_bundle_stmt_digest<O>(bundle: &LeafPcsBundle<O>) -> (r: [u8; 32])
    ensures
        r@ == sha3_256(digest_bytes(statements_of(bundle.certs@))),
{
    let mut all: Vec<[u8; 32]> = Vec::new();
    let mut i: usize = 0;
    while i < bundle.certs.len()
        invariant
            i <= bundle.certs.len(),
            all@ == statements_of(bundle.certs@).take(i as int),
        decreases bundle.certs.len() - i,
    {
        all.push(bundle.certs[i].stmt_digest);
        i += 1;
        proof {
            assert(all@ =~= statements_of(bundle.certs@).take(i as int));
        }
    }
    proof {
        assert(all@ =~= statements_of(bundle.certs@));
    }
    hash_digests(&all)
}

impl<
    S: LeafSystem,
    V: Fn(&FriFoldAir, &[Val], &[u8]) -> bool,
    D: Fn(&DeepRoAir, &[Val], &[u8]) -> bool,
    T: Fn(&DeepRoLeafTraceAir, &[Val], &[u8]) -> bool,
    K: Fn(&MmcsGroupPathAir, &[Val], &[u8]) -> bool,
    P: Fn(&[MmcsPathStatement], &PoseidonGroupFoldProof) -> bool,
> LeafContext<S, V, D, T, K, P> {
    /// A payload may decode so.
    pub open spec fn decodes(self, payload: Seq<u8>, d: Option<StarkProofView>) -> bool {
        exists|b: &[u8]| #[trigger] call_ensures(S::decode, (&self.system, b), d) && b@ == payload
    }

    /// What checking a certificate against a payload may return. Only in a trajectory are the
    /// kinds compared.
    pub open spec fn cert_step(
        self,
        trajectory: bool,
        p: (LeafKind, Seq<u8>),
        cert: LeafPcsCertificate<S::Ood>,
        x: Result<(), LeafBundleError>,
    ) -> bool {
        if trajectory && cert.kind != p.0 {
            x == Err::<(), LeafBundleError>(LeafBundleError::Kind(cert.kind, p.0))
        } else {
            exists|d: Option<StarkProofView>| #[trigger]
                self.decodes(p.1, d) && match d {
                    None => x == Err::<(), LeafBundleError>(LeafBundleError::Decode),
                    Some(v) => exists|ok: bool| #[trigger]
                        self.verdict(v, cert, ok) && x == (if ok {
                            Ok::<(), LeafBundleError>(())
                        } else {
                            Err::<(), LeafBundleError>(LeafBundleError::Certificate)
                        }),
                }
        }
    }

    /// What checking the certificates of a leaf may return.
    pub open spec fn bundle_verdict(
        self,
        f: LeafFrames,
        m: ChildMarkers,
        certs: Seq<LeafPcsCertificate<S::Ood>>,
        r: Result<(), LeafBundleError>,
    ) -> bool {
        match leaf_payloads(f, m) {
            Err(e) => r == Err::<(), LeafBundleError>(e),
            Ok(ps) => if ps.len() != certs.len() {
                r == Err::<(), LeafBundleError>(
                    LeafBundleError::Count(certs.len() as usize, ps.len() as usize),
                )
            } else {
                in_turn(
                    ps.len(),
                    |i: int, x: Result<(), LeafBundleError>|
                        self.cert_step(f is Trajectory, ps[i], certs[i], x),
                    r,
                )
            },
        }
    }

    fn check_cert(
        &self,
        trajectory: bool,
        p: &(LeafKind, Vec<u8>),
        cert: &LeafPcsCertificate<S::Ood>,
    ) -> (x: Result<(), LeafBundleError>)
        requires
            self.ready(),
        ensures
            self.cert_step(trajectory, (p.0, p.1@), *cert, x),
    {
        if trajectory && cert.kind != p.0 {
            return Err(LeafBundleError::Kind(cert.kind, p.0));
        }
        let d = self.decoded(&p.1);
        let ghost pv = (p.0, p.1@);
        proof {
            assert(self.decodes(pv.1, d));
        }
        let v = match d {
            None => {
                return Err(LeafBundleError::Decode);
            },
            Some(v) => v,
        };
        let ok: bool = verify_leaf_pcs_certificate(&v, cert, self);
        proof {
            assert(self.verdict(v, *cert, ok));
        }
        if ok {
            Ok(())
        } else {
            Err(LeafBundleError::Certificate)
        }
    }

    fn decoded(&self, payload: &Vec<u8>) -> (d: Option<StarkProofView>)
        ensures
            self.decodes(payload@, d),
    {
        let b: &[u8] = payload.as_slice();
        let d = self.system.decode(b);
        proof {
            assert(call_ensures(S::decode, (&self.system, b), d));
        }
        d
    }

    /// What certifying a payload may return.
    pub open spec fn cert_made(
        self,
        p: (LeafKind, Seq<u8>),
        x: Result<LeafPcsCertificate<S::Ood>, LeafBundleError>,
    ) -> bool {
        exists|d: Option<StarkProofView>| #[trigger]
            self.decodes(p.1, d) && match d {
                None => x == Err::<LeafPcsCertificate<S::Ood>, LeafBundleError>(
                    LeafBundleError::Decode,
                ),
                Some(v) => self.made_of(v, p.0, x),
            }
    }

    /// What certifying a proof may return.
    pub open spec fn made_of(
        self,
        v: StarkProofView,
        kind: LeafKind,
        x: Result<LeafPcsCertificate<S::Ood>, LeafBundleError>,
    ) -> bool {
        exists|stmt: [u8; 32]| #[trigger]
            self.is_stmt(v, kind, stmt) && match x {
                Ok(c) => self.built(v, kind, stmt, Ok(c)),
                Err(LeafBundleError::Build(e)) => self.built(v, kind, stmt, Err(e)),
                Err(_) => false,
            }
    }

    /// `stmt` is the statement digest of a proof.
    pub open spec fn is_stmt(self, v: StarkProofView, kind: LeafKind, stmt: [u8; 32]) -> bool {
        stmt@ == sha3_256(leaf_stmt_bytes(self.rules, kind, v))
    }

    fn make_cert(&self, p: &(LeafKind, Vec<u8>)) -> (x: Result<
        LeafPcsCertificate<S::Ood>,
        LeafBundleError,
    >)
        requires
            self.ready(),
        ensures
            self.cert_made((p.0, p.1@), x),
    {
        let d = self.decoded(&p.1);
        let ghost pv = (p.0, p.1@);
        proof {
            assert(self.decodes(pv.1, d));
        }
        let v = match d {
            None => {
                return Err(LeafBundleError::Decode);
            },
            Some(v) => v,
        };
        self.make_of(&v, p.0)
    }

    fn make_of(&self, v: &StarkProofView, kind: LeafKind) -> (x: Result<
        LeafPcsCertificate<S::Ood>,
        LeafBundleError,
    >)
        requires
            self.ready(),
        ensures
            self.made_of(*v, kind, x),
    {
        let stmt = leaf_stmt_digest(kind, v, &self.rules);
        proof {
            assert(self.is_stmt(*v, kind, stmt));
        }
        match build_leaf_pcs_certificate(v, kind, stmt, self) {
            Ok(c) => Ok(c),
            Err(e) => Err(LeafBundleError::Build(e)),
        }
    }

    /// Every payload was certified, in order.
    pub open spec fn all_made(
        self,
        ps: Seq<(LeafKind, Seq<u8>)>,
        certs: Seq<LeafPcsCertificate<S::Ood>>,
    ) -> bool {
        &&& certs.len() == ps.len()
        &&& forall|i: int| 0 <= i < ps.len() ==> self.cert_made(ps[i], Ok(#[trigger] certs[i]))
    }

    /// The payloads before position `k` can be certified and that at `k` may fail with `e`.
    pub open spec fn stops_at(
        self,
        ps: Seq<(LeafKind, Seq<u8>)>,
        k: int,
        e: LeafBundleError,
    ) -> bool {
        &&& 0 <= k < ps.len()
        &&& self.cert_made(ps[k], Err(e))
        &&& exists|certs: Seq<LeafPcsCertificate<S::Ood>>| #[trigger]
            self.all_made(ps.take(k), certs)
    }

    /// What certifying a leaf may return: certificates of all its proofs that hold together.
    pub open spec fn bundle_built(
        self,
        f: LeafFrames,
        m: ChildMarkers,
        r: Result<LeafPcsBundle<S::Ood>, LeafBundleError>,
    ) -> bool {
        match leaf_payloads(f, m) {
            Err(e) => r == Err::<LeafPcsBundle<S::Ood>, LeafBundleError>(e),
            Ok(ps) => match r {
                Ok(b) => self.all_made(ps, b.certs@) && self.bundle_verdict(f, m, b.certs@, Ok(())),
                Err(e) => {
                    ||| exists|k: int| #[trigger] self.stops_at(ps, k, e)
                    ||| exists|certs: Seq<LeafPcsCertificate<S::Ood>>| #[trigger]
                        self.all_made(ps, certs) && self.bundle_verdict(f, m, certs, Err(e))
                },
            },
        }
    }
}

/// Checks the certificates of a leaf against the proofs it carries.
pub fn verify_leaf_pcs_bundle<
    S: LeafSystem,
    V: Fn(&FriFoldAir, &[Val], &[u8]) -> bool,
    D: Fn(&DeepRoAir, &[Val], &[u8]) -> bool,
    T: Fn(&DeepRoLeafTraceAir, &[Val], &[u8]) -> bool,
    K: Fn(&MmcsGroupPathAir, &[Val], &[u8]) -> bool,
    P: Fn(&[MmcsPathStatement], &PoseidonGroupFoldProof) -> bool,
>(
    frames: &LeafFrames,
    markers: &ChildMarkers,
    bundle: &LeafPcsBundle<S::Ood>,
    ctx: &LeafContext<S, V, D, T, K, P>,
) -> (r: Result<(), LeafBundleError>)
    requires
        ctx.ready(),
    ensures
        ctx.bundle_verdict(*frames, *markers, bundle.certs@, r),
{
    let payloads = match read_leaf_payloads(frames, markers) {
        Ok(p) => p,
        Err(e) => {
            return Err(e);
        },
    };
    if payloads.len() != bundle.certs.len() {
        return Err(LeafBundleError::Count(bundle.certs.len(), payloads.len()));
    }
    let trajectory: bool = matches!(frames, LeafFrames::Trajectory(_));
    let ghost ps = payload_views(payloads@);
    let ghost step = |i: int, x: Result<(), LeafBundleError>|
        ctx.cert_step(*frames is Trajectory, ps[i], bundle.certs@[i], x);
    let mut i: usize = 0;
    while i < payloads.len()
        invariant
            i <= payloads.len(),
            ctx.ready(),
            trajectory == (*frames is Trajectory),
            ps == payload_views(payloads@),
            payloads@.len() == bundle.certs@.len(),
            leaf_payloads(*frames, *markers) == Ok::<Seq<(LeafKind, Seq<u8>)>, LeafBundleError>(ps),
            step == (|i: int, x: Result<(), LeafBundleError>|
                ctx.cert_step(*frames is Trajectory, ps[i], bundle.certs@[i], x)),
            forall|k: int| 0 <= k < i ==> #[trigger] step(k, Ok(())),
        decreases payloads.len() - i,
    {
        match ctx.check_cert(trajectory, &payloads[i], &bundle.certs[i]) {
            Ok(_) => {
                proof {
                    assert(step(i as int, Ok(())));
                }
            },
            Err(e) => {
                proof {
                    assert(step(i as int, Err(e)));
                    lemma_turn_fails(ps.len(), step, i as int, e);
                }
                return Err(e);
            },
        }
        i += 1;
    }
    Ok(())
}

/// A payload that cannot be certified ends the work on a leaf.
proof fn lemma_stopped<
    S: LeafSystem,
    V: Fn(&FriFoldAir, &[Val], &[u8]) -> bool,
    D: Fn(&DeepRoAir, &[Val], &[u8]) -> bool,
    T: Fn(&DeepRoLeafTraceAir, &[Val], &[u8]) -> bool,
    K: Fn(&MmcsGroupPathAir, &[Val], &[u8]) -> bool,
    P: Fn(&[MmcsPathStatement], &PoseidonGroupFoldProof) -> bool,
>(
    ctx: LeafContext<S, V, D, T, K, P>,
    f: LeafFrames,
    m: ChildMarkers,
    ps: Seq<(LeafKind, Seq<u8>)>,
    k: int,
    e: LeafBundleError,
)
    requires
        leaf_payloads(f, m) == Ok::<Seq<(LeafKind, Seq<u8>)>, LeafBundleError>(ps),
        ctx.stops_at(ps, k, e),
    ensures
        ctx.bundle_built(f, m, Err(e)),
{
    let r = Err::<LeafPcsBundle<S::Ood>, LeafBundleError>(e);
    assert(ctx.stops_at(leaf_payloads(f, m)->Ok_0, k, r->Err_0));
    assert(ctx.bundle_built(f, m, r));
}

/// Certifies every proof a leaf carries, and checks the certificates.
pub fn build_leaf_pcs_bundle_from_child<
    S: LeafSystem,
    V: Fn(&FriFoldAir, &[Val], &[u8]) -> bool,
    D: Fn(&DeepRoAir, &[Val], &[u8]) -> bool,
    T: Fn(&DeepRoLeafTraceAir, &[Val], &[u8]) -> bool,
    K: Fn(&MmcsGroupPathAir, &[Val], &[u8]) -> bool,
    P: Fn(&[MmcsPathStatement], &PoseidonGroupFoldProof) -> bool,
>(
    frames: &LeafFrames,
    markers: &ChildMarkers,
    ctx: &LeafContext<S, V, D, T, K, P>,
) -> (r: Result<LeafPcsBundle<S::Ood>, LeafBundleError>)
    requires
        ctx.ready(),
    ensures
        ctx.bundle_built(*frames, *markers, r),
{
    let payloads = match read_leaf_payloads(frames, markers) {
        Ok(p) => p,
        Err(e) => {
            return Err(e);
        },
    };
    let ghost ps = payload_views(payloads@);
    let mut certs: Vec<LeafPcsCertificate<S::Ood>> = Vec::new();
    let mut i: usize = 0;
    while i < payloads.len()
        invariant
            i <= payloads.len(),
            ctx.ready(),
            ps == payload_views(payloads@),
            leaf_payloads(*frames, *markers) == Ok::<Seq<(LeafKind, Seq<u8>)>, LeafBundleError>(ps),
            certs@.len() == i,
            forall|k: int| 0 <= k < i ==> ctx.cert_made(ps[k], Ok(#[trigger] certs@[k])),
        decreases payloads.len() - i,
    {
        match ctx.make_cert(&payloads[i]) {
            Ok(c) => {
                certs.push(c);
            },
            Err(e) => {
                proof {
                    assert(ctx.all_made(ps.take(i as int), certs@));
                    assert(ctx.stops_at(ps, i as int, e));
                    lemma_stopped(*ctx, *frames, *markers, ps, i as int, e);
                }
                return Err(e);
            },
        }
        i += 1;
    }
    let bundle = LeafPcsBundle { certs };
    proof {
        assert(ctx.all_made(ps, bundle.certs@));
    }
    match verify_leaf_pcs_bundle(frames, markers, &bundle, ctx) {
        Ok(_) => Ok(bundle),
        Err(e) => Err(e),
    }
}

} // verus!
