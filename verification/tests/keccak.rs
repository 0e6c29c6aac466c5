use p3_keccak::Keccak256Hash;
use p3_symmetric::CryptographicHasher;
use wqc_recursion::agg_constraints::AGG_WIDTH;
use wqc_recursion::constraint::RowEvaluator;
use wqc_recursion::field::Val;
use wqc_recursion::keccak256_air::{
    build_public_values, build_sponge_matrix, prove_compress, verify_compress_digest,
    Keccak256Error, Keccak256SpongeAir, prove_keccak256, verify_keccak256,
};
use wqc_recursion::keccak_f_air::{
    apply_round_bits, bit_col, KeccakFRoundAir, KECCAK_F_WIDTH, LIVE_COL,
};
use wqc_recursion::keccak_f_native::{
    bits_to_state, bytes_to_state, keccak256, keccak256_compress, keccak256_lde_leaf, keccak_f,
    keccak_round, num_permutations, sponge_witness, state_to_bits, state_to_bytes,
    KECCAK_STATE_BITS, RC,
};
use wqc_recursion::matrix::RowMajorMatrix;
use wqc_recursion::merkle_keccak::{compress_digests_keccak, hash_lde_leaf};

fn sponge_holds(air: &Keccak256SpongeAir, m: &RowMajorMatrix, pv: &Vec<Val>) -> bool {
    (0..m.height()).all(|i| {
        let mut sink = RowEvaluator::new();
        air.eval(&mut sink, &m.window(i, pv));
        sink.satisfied()
    })
}

#[test]
fn keccak256_matches_p3() {
    for msg in [
        &[][..],
        b"abc",
        &[0u8; 64],
        &[1u8; 136],
        &[2u8; 264],
        &[3u8; 200],
    ] {
        let ours = keccak256(msg);
        let theirs = Keccak256Hash.hash_iter(msg.iter().copied());
        assert_eq!(ours, theirs, "len={}", msg.len());
    }
}

#[test]
fn keccak256_of_nothing() {
    let d = keccak256(&[]);
    assert_eq!(
        d[..8],
        [0xc5, 0xd2, 0x46, 0x01, 0x86, 0xf7, 0x23, 0x3c]
    );
}

#[test]
fn compress_and_leaf_match_val_mmcs() {
    let left = [9u8; 32];
    let right = [7u8; 32];
    assert_eq!(
        keccak256_compress(left, right),
        compress_digests_keccak(left, right)
    );
    let row: Vec<Val> = (0..AGG_WIDTH).map(|i| Val::from_u32(i as u32)).collect();
    assert_eq!(keccak256_lde_leaf(&row), hash_lde_leaf(&row));
}

#[test]
fn sponge_witness_roundtrip() {
    let msg = [5u8; 64];
    let (pre, final_state) = sponge_witness(&msg);
    assert_eq!(pre.len(), 24);
    let mut s = pre[0];
    for r in 0..24 {
        assert_eq!(s, pre[r]);
        keccak_round(&mut s, RC[r]);
    }
    assert_eq!(s, final_state);
    let bytes = state_to_bytes(&final_state);
    assert_eq!(&bytes[..32], &keccak256(&msg));
}

#[test]
fn sponge_witness_two_blocks() {
    let msg = [6u8; 264];
    let (pre, final_state) = sponge_witness(&msg);
    assert_eq!(pre.len(), 48);
    assert_eq!(&state_to_bytes(&final_state)[..32], &keccak256(&msg));
    assert_eq!(num_permutations(264), 2);
    assert_eq!(num_permutations(64), 1);
    assert_eq!(num_permutations(136), 2);
}

#[test]
fn state_conversions_invert() {
    let mut state = [0u64; 25];
    for (i, lane) in state.iter_mut().enumerate() {
        *lane = (i as u64 + 1).wrapping_mul(0x9e37_79b9_7f4a_7c15);
    }
    assert_eq!(bytes_to_state(&state_to_bytes(&state)), state);
    assert_eq!(bits_to_state(&state_to_bits(&state)), state);
}

#[test]
fn apply_round_bits_matches_native() {
    assert_eq!(bit_col(0), 0);
    assert_eq!(LIVE_COL, 1600);
    assert_eq!(KECCAK_F_WIDTH, 1601);
    assert_eq!(KeccakFRoundAir::round(0).rc, RC[0]);

    let mut state = [0u64; 25];
    state[0] = 0x0123_4567_89ab_cdef;
    state[1] = 0xfedc_ba98_7654_3210;
    state[7] = 0x1111_2222_3333_4444;
    let bits = state_to_bits(&state);
    let rc = RC[0];
    let got = apply_round_bits(&bits, rc);
    keccak_round(&mut state, rc);
    assert_eq!(got, state_to_bits(&state));
}

fn one_round_matrix(pre: &[bool; KECCAK_STATE_BITS], rc: u64) -> RowMajorMatrix {
    let post = apply_round_bits(pre, rc);
    let mut values = Vec::new();
    for b in pre.iter() {
        values.push(Val::from_bool(*b));
    }
    values.push(Val::from_bool(true));
    for b in post.iter() {
        values.push(Val::from_bool(*b));
    }
    values.push(Val::from_bool(true));
    RowMajorMatrix {
        values,
        width: KECCAK_F_WIDTH,
    }
}

fn round_holds(air: &KeccakFRoundAir, m: &RowMajorMatrix) -> bool {
    let pv: Vec<Val> = Vec::new();
    (0..m.height()).all(|i| {
        let mut sink = RowEvaluator::new();
        air.eval(&mut sink, &m.window(i, &pv));
        sink.satisfied()
    })
}

#[test]
fn one_round_air_constraints_hold() {
    let mut state = [0u64; 25];
    for i in 0..25 {
        state[i] = (i as u64).wrapping_mul(0x9e37_79b9_7f4a_7c15) ^ 0xa5a5_a5a5_a5a5_a5a5;
    }
    let pre = state_to_bits(&state);
    let rc = RC[3];
    let matrix = one_round_matrix(&pre, rc);
    assert!(round_holds(&KeccakFRoundAir::new(rc), &matrix));
}

#[test]
fn one_round_air_rejects_bad_next() {
    let pre = [false; KECCAK_STATE_BITS];
    let rc = RC[0];
    let mut matrix = one_round_matrix(&pre, rc);
    let flip_idx = KECCAK_F_WIDTH;
    matrix.values[flip_idx] = Val::one().minus(&matrix.values[flip_idx]);
    assert!(!round_holds(&KeccakFRoundAir::new(rc), &matrix));
}

#[test]
fn sponge_matrix_constraints_compress() {
    let msg = [9u8; 64];
    let digest = keccak256(&msg);
    let air = Keccak256SpongeAir::compress();
    let matrix = build_sponge_matrix(&msg);
    let pv = build_public_values(&msg, &digest);
    assert!(sponge_holds(&air, &matrix, &pv));
}

#[test]
fn sponge_matrix_constraints_leaf() {
    let msg = [3u8; 264];
    let digest = keccak256(&msg);
    let air = Keccak256SpongeAir::leaf();
    let matrix = build_sponge_matrix(&msg);
    let pv = build_public_values(&msg, &digest);
    assert!(sponge_holds(&air, &matrix, &pv));
}

#[test]
fn sponge_rejects_another_digest() {
    let msg = [9u8; 64];
    let air = Keccak256SpongeAir::compress();
    let matrix = build_sponge_matrix(&msg);
    let pv = build_public_values(&msg, &[1u8; 32]);
    assert!(!sponge_holds(&air, &matrix, &pv));
}

fn encode(pv: &[Val]) -> Vec<u8> {
    pv.iter()
        .flat_map(|v| v.as_canonical_u32().to_le_bytes())
        .collect()
}

/// A proof system that checks every row and answers with the publics it checked.
fn prover(air: &Keccak256SpongeAir, m: &RowMajorMatrix, pv: &[Val]) -> Result<Vec<u8>, String> {
    if sponge_holds(air, m, &pv.to_vec()) {
        Ok(encode(pv))
    } else {
        Err("constraints".to_string())
    }
}

fn check_bytes(_air: &Keccak256SpongeAir, pv: &[Val], proof: &[u8]) -> bool {
    encode(pv) == proof
}

#[test]
fn prove_verify_compress_roundtrip() {
    let left = [1u8; 32];
    let right = [2u8; 32];
    let proof = prove_compress(left, right, &prover).expect("prove");
    assert!(verify_compress_digest(
        left,
        right,
        &proof.digest,
        &proof,
        &check_bytes
    ));
    assert_eq!(
        proof.digest,
        keccak256(&{
            let mut m = [0u8; 64];
            m[..32].copy_from_slice(&left);
            m[32..].copy_from_slice(&right);
            m
        })
    );
    assert!(!verify_compress_digest(
        right,
        left,
        &proof.digest,
        &proof,
        &check_bytes
    ));
}

#[test]
fn sponge_errors() {
    assert_eq!(
        prove_keccak256(&[0u8; 3], &prover),
        Err(Keccak256Error::UnsupportedMsgLen)
    );
    let fails = |_a: &Keccak256SpongeAir, _m: &RowMajorMatrix, _p: &[Val]| {
        Err::<Vec<u8>, String>("down".to_string())
    };
    assert_eq!(
        prove_keccak256(&[0u8; 64], &fails),
        Err(Keccak256Error::Backend("down".to_string()))
    );
    let proof = prove_keccak256(&[0u8; 64], &prover).expect("prove");
    assert!(!verify_keccak256(&[0u8; 12], &proof, &check_bytes));
    assert!(verify_keccak256(&[0u8; 64], &proof, &check_bytes));
}

fn mixed_state() -> [u64; 25] {
    let mut state = [0u64; 25];
    for (i, lane) in state.iter_mut().enumerate() {
        *lane = (i as u64 + 3).wrapping_mul(0x9e37_79b9_7f4a_7c15);
    }
    state
}

#[test]
fn round_constant_enters_lane_zero() {
    let mut plain = mixed_state();
    keccak_round(&mut plain, 0);
    for rc in RC {
        let mut state = mixed_state();
        keccak_round(&mut state, rc);
        assert_eq!(state[0], plain[0] ^ rc);
        assert_eq!(state[1..], plain[1..]);
    }
    let mut zero = [0u64; 25];
    keccak_round(&mut zero, RC[1]);
    assert_eq!(zero[0], RC[1]);
    assert_eq!(zero[1..], [0u64; 24]);
}

#[test]
fn rounds_keep_states_apart() {
    let start = mixed_state();
    let mut one = start;
    keccak_round(&mut one, RC[0]);
    let mut all = start;
    keccak_f(&mut all);
    for bit in 0..KECCAK_STATE_BITS {
        let mut other = start;
        other[bit / 64] ^= 1u64 << (bit % 64);
        let mut stepped = other;
        keccak_round(&mut stepped, RC[0]);
        assert_ne!(stepped, one);
        keccak_f(&mut other);
        assert_ne!(other, all);
    }
}
