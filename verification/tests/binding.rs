use sha3::{Digest, Sha3_256};
use wqc_recursion::air::{REC_KIND_AGG, REC_KIND_LEAF};
use wqc_recursion::child_binding::{
    child_stark_binding, ChildFrames, ChildMarkers, TrajectoryFrames,
};
use wqc_recursion::framing::{read_frame, read_payload_list, FrameError};
use wqc_recursion::fri_mmcs_path::FriMmcsPathProof;
use wqc_recursion::keccak256_air::Keccak256StarkProof;
use wqc_recursion::path_strip::{m4b_width_eligible, path_starks_stripped, strip_fri_mmcs_path_starks};

fn markers() -> ChildMarkers {
    ChildMarkers {
        rec_agg: b"REC!".to_vec(),
        agg: b"AGG!".to_vec(),
        born: b"BORN".to_vec(),
        traj_marginal: b"MARG".to_vec(),
        traj_shot: b"SHOT".to_vec(),
    }
}

#[test]
fn binding_is_deterministic() {
    let a = child_stark_binding(b"not-a-real-proof", &ChildFrames::none(), &markers());
    let b = child_stark_binding(b"not-a-real-proof", &ChildFrames::none(), &markers());
    assert_eq!(a, b);
    assert_eq!(a.kind, REC_KIND_LEAF);
}

#[test]
fn strip_path_clears_starks() {
    let mut path = FriMmcsPathProof {
        depth: 1,
        leaf_width: 3,
        leaf_digest: [1u8; 32],
        layer_digests: vec![[2u8; 32]],
        fold_stark: vec![9, 9, 9],
        leaf_keccak: Keccak256StarkProof {
            msg_len: 12,
            digest: [1u8; 32],
            stark: vec![1, 2, 3],
        },
        compress_starks: vec![Keccak256StarkProof {
            msg_len: 64,
            digest: [2u8; 32],
            stark: vec![4, 5],
        }],
    };
    assert!(!path_starks_stripped(&path));
    strip_fri_mmcs_path_starks(&mut path);
    assert!(path_starks_stripped(&path));
    assert_eq!(path.compress_starks.len(), 1);
    assert!(path.compress_starks[0].stark.is_empty());
}

#[test]
fn m4b_width_gate() {
    assert!(m4b_width_eligible(3));
    assert!(m4b_width_eligible(21));
    assert!(m4b_width_eligible(34));
    assert!(m4b_width_eligible(48));
    assert!(m4b_width_eligible(68));
    assert!(!m4b_width_eligible(69));
    assert!(!m4b_width_eligible(0));
}

fn sha3(bytes: &[u8]) -> [u8; 32] {
    Sha3_256::digest(bytes).into()
}

fn framed(marker: &[u8], texts: usize, skip: usize, payload: &[u8]) -> Vec<u8> {
    let mut out = b"lead".to_vec();
    out.extend_from_slice(marker);
    for _ in 0..texts {
        out.extend_from_slice(b"id\0");
    }
    out.extend(vec![1u8; skip]);
    out.extend_from_slice(&(payload.len() as u32).to_le_bytes());
    out.extend_from_slice(payload);
    out
}

#[test]
fn innermost_payload_is_bound() {
    let child = b"child";
    let mut frames = ChildFrames::none();
    assert_eq!(
        child_stark_binding(child, &frames, &markers()).stark_digest,
        sha3(child)
    );
    frames.composed = true;
    let b = child_stark_binding(child, &frames, &markers());
    assert_eq!((b.stark_digest, b.kind), (sha3(child), REC_KIND_AGG));
    frames.composed = false;
    frames.leaf = Some(b"leaf".to_vec());
    let b = child_stark_binding(child, &frames, &markers());
    assert_eq!((b.stark_digest, b.kind), (sha3(b"leaf"), REC_KIND_LEAF));
    let marginal = framed(b"MARG", 3, 0, b"m0");
    let mut list = 1u32.to_le_bytes().to_vec();
    list.extend_from_slice(&(marginal.len() as u32).to_le_bytes());
    list.extend_from_slice(&marginal);
    frames.trajectory = Some(TrajectoryFrames {
        marginals: list,
        shot: framed(b"SHOT", 1, 20, b"s"),
    });
    let b = child_stark_binding(child, &frames, &markers());
    assert_eq!((b.stark_digest, b.kind), (sha3(b"m0s"), REC_KIND_LEAF));
    frames.born = Some(framed(b"BORN", 2, 0, b"born"));
    let b = child_stark_binding(child, &frames, &markers());
    assert_eq!((b.stark_digest, b.kind), (sha3(b"born"), REC_KIND_LEAF));
    frames.agg = Some(framed(b"AGG!", 2, 64, b"agg"));
    let b = child_stark_binding(child, &frames, &markers());
    assert_eq!((b.stark_digest, b.kind), (sha3(b"agg"), REC_KIND_AGG));
    frames.rec = Some(framed(b"REC!", 2, 130, b"rec"));
    let b = child_stark_binding(child, &frames, &markers());
    assert_eq!((b.stark_digest, b.kind), (sha3(b"rec"), REC_KIND_AGG));
    frames.rec = Some(b"garbage".to_vec());
    let b = child_stark_binding(child, &frames, &markers());
    assert_eq!(b.stark_digest, sha3(b"agg"));
}

#[test]
fn frames_are_read_exactly() {
    let f = framed(b"MARK", 2, 3, b"payload");
    assert_eq!(read_frame(&f, b"MARK", 2, 3), Ok(b"payload".to_vec()));
    assert_eq!(read_frame(&f, b"NONE", 2, 3), Err(FrameError::Marker));
    assert_eq!(read_frame(&f[..9], b"MARK", 2, 3), Err(FrameError::Fields));
    assert_eq!(read_frame(&f[..18], b"MARK", 2, 3), Err(FrameError::Length));
    assert_eq!(
        read_frame(&f[..f.len() - 1], b"MARK", 2, 3),
        Err(FrameError::Payload)
    );
    let mut list = 2u32.to_le_bytes().to_vec();
    for p in [&b"a"[..], &b"bc"[..]] {
        list.extend_from_slice(&(p.len() as u32).to_le_bytes());
        list.extend_from_slice(p);
    }
    assert_eq!(
        read_payload_list(&list, true),
        Ok(vec![b"a".to_vec(), b"bc".to_vec()])
    );
    list.push(9);
    assert_eq!(read_payload_list(&list, true), Err(FrameError::Trailing));
    assert_eq!(read_payload_list(&list, false).map(|v| v.len()), Ok(2));
    assert_eq!(read_payload_list(&[1, 0], false), Err(FrameError::Length));
}
