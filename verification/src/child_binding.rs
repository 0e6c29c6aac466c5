//! The digest and kind that bind a child proof to its parent.
use sha3::{Digest, Sha3_256};
use vstd::prelude::*;

use crate::air::{REC_KIND_AGG, REC_KIND_LEAF};
use crate::framing::{
    byte_lists, frame_payload, payload_list, read_frame, read_payload_list, same_bytes_outcome,
    FrameError,
};

verus! {

/// Bytes of a child hash.
pub const CHILD_HASH_LEN: usize = 32;

/// Bytes of a proof digest.
pub const STARK_DIGEST_LEN: usize = 32;

/// What binds a child: the digest of its proof payload, and whether it is an aggregation.
#[derive(Debug, Clone, Copy, PartialEq, Eq)]
pub struct ChildStarkBinding {
    pub stark_digest: [u8; 32],
    pub kind: u8,
}

/// SHA3-256 of a byte string.
pub uninterp spec fn sha3_256(bytes: Seq<u8>) -> Seq<u8>;

/// `sha3::Digest::digest` of `sha3::Sha3_256`: the hash of the bytes, named `sha3_256`.
#[verifier::external_body]
pub(crate) fn sha3_32(bytes: &[u8]) -> (r: [u8; 32])
    ensures
        r@ == sha3_256(bytes@),
{
    Sha3_256::digest(bytes).into()
}

/// Markers of the frames a payload stands in.
#[derive(Debug, Clone)]
pub struct ChildMarkers {
    pub rec_agg: Vec<u8>,
    pub agg: Vec<u8>,
    pub born: Vec<u8>,
    pub traj_marginal: Vec<u8>,
    pub traj_shot: Vec<u8>,
}

/// The frames of a trajectory child.
#[derive(Debug, Clone)]
pub struct TrajectoryFrames {
    /// A counted list of marginal frames.
    pub marginals: Vec<u8>,
    pub shot: Vec<u8>,
}

/// The parts of a child that carry its proof, as far as it has them.
#[derive(Debug, Clone)]
pub struct ChildFrames {
    /// The recursive aggregation part.
    pub rec: Option<Vec<u8>>,
    /// The aggregation part.
    pub agg: Option<Vec<u8>>,
    /// The inner proof of a Born leaf.
    pub born: Option<Vec<u8>>,
    pub trajectory: Option<TrajectoryFrames>,
    /// Whether the child is a composition.
    pub composed: bool,
    /// The proof of a unitary leaf.
    pub leaf: Option<Vec<u8>>,
}

impl ChildFrames {
    /// A child in which no part was recognised.
    pub fn none() -> (r: Self)
        ensures
            r.rec is None,
            r.agg is None,
            r.born is None,
            r.trajectory is None,
            !r.composed,
            r.leaf is None,
    {
        ChildFrames {
            rec: None,
            agg: None,
            born: None,
            trajectory: None,
            composed: false,
            leaf: None,
        }
    }
}

/// The payload of an aggregation frame: after two texts, two child hashes and, in a recursive
/// one, two proof digests and kinds.
pub open spec fn agg_payload(inner: Seq<u8>, marker: Seq<u8>, recursive: bool) -> Result<
    Seq<u8>,
    FrameError,
> {
    frame_payload(
        inner,
        marker,
        2,
        if recursive {
            130
        } else {
            64
        },
    )
}

/// The payloads of the first `n` marginal frames, one after the other.
pub open spec fn marginal_payloads(frames: Seq<Seq<u8>>, marker: Seq<u8>, n: nat) -> Result<
    Seq<u8>,
    FrameError,
>
    decreases n,
{
    if n == 0 {
        Ok(Seq::empty())
    } else {
        match marginal_payloads(frames, marker, (n - 1) as nat) {
            Err(e) => Err(e),
            Ok(s) => match frame_payload(frames[n - 1], marker, 3, 0) {
                Err(e) => Err(e),
                Ok(p) => Ok(s + p),
            },
        }
    }
}

/// The payload of the shot frame: after a text, the seed, the shot count and the event count.
pub open spec fn shot_payload(inner: Seq<u8>, marker: Seq<u8>) -> Result<Seq<u8>, FrameError> {
    frame_payload(inner, marker, 1, 20)
}

/// The payloads of a trajectory child: every marginal one, then the shot one.
pub open spec fn trajectory_payload(t: TrajectoryFrames, m: ChildMarkers) -> Result<
    Seq<u8>,
    FrameError,
> {
    match payload_list(t.marginals@, false) {
        Err(e) => Err(e),
        Ok(frames) => match marginal_payloads(frames, m.traj_marginal@, frames.len()) {
            Err(e) => Err(e),
            Ok(s) => match shot_payload(t.shot@, m.traj_shot@) {
                Err(e) => Err(e),
                Ok(p) => Ok(s + p),
            },
        },
    }
}

/// What of a child is hashed, and its kind: the innermost proof payload that can be read, in the
/// order recursive aggregation, aggregation, Born, trajectory; a composition is hashed whole, a
/// unitary leaf by its proof, and anything else whole.
pub open spec fn bound_bytes(child: Seq<u8>, f: ChildFrames, m: ChildMarkers) -> (Seq<u8>, u8) {
    if f.rec matches Some(r) && agg_payload(r@, m.rec_agg@, true) is Ok {
        (agg_payload(f.rec->0@, m.rec_agg@, true)->Ok_0, REC_KIND_AGG)
    } else if f.agg matches Some(a) && agg_payload(a@, m.agg@, false) is Ok {
        (agg_payload(f.agg->0@, m.agg@, false)->Ok_0, REC_KIND_AGG)
    } else if f.born matches Some(b) && frame_payload(b@, m.born@, 2, 0) is Ok {
        (frame_payload(f.born->0@, m.born@, 2, 0)->Ok_0, REC_KIND_LEAF)
    } else if f.trajectory matches Some(t) && trajectory_payload(t, m) is Ok {
        (trajectory_payload(f.trajectory->0, m)->Ok_0, REC_KIND_LEAF)
    } else if f.composed {
        (child, REC_KIND_AGG)
    } else if f.leaf is Some {
        (f.leaf->0@, REC_KIND_LEAF)
    } else {
        (child, REC_KIND_LEAF)
    }
}

/// Reads the payloads of marginal frames, one after the other.
fn read_marginals(frames: &Vec<Vec<u8>>, marker: &[u8]) -> (r: Result<Vec<u8>, FrameError>)
    ensures
        same_bytes_outcome(
            r,
            marginal_payloads(byte_lists(frames@), marker@, frames@.len()),
        ),
{
    let ghost lists = byte_lists(frames@);
    let mut out: Vec<u8> = Vec::new();
    let mut i: usize = 0;
    while i < frames.len()
        invariant
            i <= frames.len(),
            lists == byte_lists(frames@),
            marginal_payloads(lists, marker@, i as nat) == Ok::<Seq<u8>, FrameError>(out@),
        decreases frames.len() - i,
    {
        match read_frame(frames[i].as_slice(), marker, 3, 0) {
            Ok(p) => {
                append_bytes(&mut out, &p);
            },
            Err(e) => {
                proof {
                    lemma_marginals_end(lists, marker@, (i + 1) as nat, frames@.len());
                }
                return Err(e);
            },
        }
        i += 1;
    }
    Ok(out)
}

/// Once a marginal frame fails the list does.
proof fn lemma_marginals_end(frames: Seq<Seq<u8>>, marker: Seq<u8>, a: nat, b: nat)
    requires
        a <= b,
        marginal_payloads(frames, marker, a) is Err,
    ensures
        marginal_payloads(frames, marker, b) == marginal_payloads(frames, marker, a),
    decreases b,
{
    if a < b {
        lemma_marginals_end(frames, marker, a, (b - 1) as nat);
    }
}

/// Appends bytes.
pub(crate) fn append_bytes(out: &mut Vec<u8>, s: &Vec<u8>)
    ensures
        final(out)@ == old(out)@ + s@,
{
    let ghost o0 = out@;
    let mut i: usize = 0;
    proof {
        assert(out@ =~= o0 + s@.take(0));
    }
    while i < s.len()
        invariant
            i <= s.len(),
            out@ == o0 + s@.take(i as int),
        decreases s.len() - i,
    {
        out.push(s[i]);
        i += 1;
        proof {
            assert(out@ =~= o0 + s@.take(i as int));
        }
    }
    proof {
        assert(s@.take(i as int) =~= s@);
    }
}

/// Reads the payloads of a trajectory child.
fn read_trajectory(t: &TrajectoryFrames, m: &ChildMarkers) -> (r: Result<Vec<u8>, FrameError>)
    ensures
        same_bytes_outcome(r, trajectory_payload(*t, *m)),
{
    let frames = match read_payload_list(t.marginals.as_slice(), false) {
        Ok(v) => v,
        Err(e) => {
            return Err(e);
        },
    };
    let mut out = match read_marginals(&frames, m.traj_marginal.as_slice()) {
        Ok(v) => v,
        Err(e) => {
            return Err(e);
        },
    };
    match read_frame(t.shot.as_slice(), m.traj_shot.as_slice(), 1, 20) {
        Ok(p) => {
            append_bytes(&mut out, &p);
            Ok(out)
        },
        Err(e) => Err(e),
    }
}

/// Binds a payload.
fn bind_bytes(payload: &[u8], kind: u8) -> (r: ChildStarkBinding)
    ensures
        r.stark_digest@ == sha3_256(payload@),
        r.kind == kind,
{
    ChildStarkBinding { stark_digest: sha3_32(payload), kind }
}

/// `r` is the binding of a child: the hash of what of it is bound, and its kind.
pub open spec fn is_binding(
    r: ChildStarkBinding,
    child: Seq<u8>,
    f: ChildFrames,
    m: ChildMarkers,
) -> bool {
    &&& r.stark_digest@ == sha3_256(bound_bytes(child, f, m).0)
    &&& r.kind == bound_bytes(child, f, m).1
}

/// The binding of a child, from its frames.
pub fn child_stark_binding(child: &[u8], frames: &ChildFrames, markers: &ChildMarkers) -> (r:
    ChildStarkBinding)
    ensures
        is_binding(r, child@, *frames, *markers),
{
    if let Some(rec) = &frames.rec {
        if let Ok(p) = read_frame(rec.as_slice(), markers.rec_agg.as_slice(), 2, 130) {
            return bind_bytes(p.as_slice(), REC_KIND_AGG);
        }
    }
    if let Some(agg) = &frames.agg {
        if let Ok(p) = read_frame(agg.as_slice(), markers.agg.as_slice(), 2, 64) {
            return bind_bytes(p.as_slice(), REC_KIND_AGG);
        }
    }
    if let Some(born) = &frames.born {
        if let Ok(p) = read_frame(born.as_slice(), markers.born.as_slice(), 2, 0) {
            return bind_bytes(p.as_slice(), REC_KIND_LEAF);
        }
    }
    if let Some(t) = &frames.trajectory {
        if let Ok(p) = read_trajectory(t, markers) {
            return bind_bytes(p.as_slice(), REC_KIND_LEAF);
        }
    }
    if frames.composed {
        return bind_bytes(child, REC_KIND_AGG);
    }
    if let Some(p) = &frames.leaf {
        return bind_bytes(p.as_slice(), REC_KIND_LEAF);
    }
    bind_bytes(child, REC_KIND_LEAF)
}

/// The binding of a child depends on nothing but the child: two bindings of the same child and
/// frames are equal.
pub proof fn lemma_binding_deterministic(
    child: Seq<u8>,
    f: ChildFrames,
    m: ChildMarkers,
    a: ChildStarkBinding,
    b: ChildStarkBinding,
)
    requires
        a.stark_digest@ == sha3_256(bound_bytes(child, f, m).0),
        a.kind == bound_bytes(child, f, m).1,
        b.stark_digest@ == sha3_256(bound_bytes(child, f, m).0),
        b.kind == bound_bytes(child, f, m).1,
    ensures
        a == b,
{
    assert(a.stark_digest == b.stark_digest) by {
        assert(a.stark_digest@ =~= b.stark_digest@);
    }
}

} // verus!
