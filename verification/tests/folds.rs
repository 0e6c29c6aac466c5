use rand::{Rng, SeedableRng};
use wqc_recursion::agg_constraints::{
    aggregation_air_constraints_hold, AGG_LEFT_OK_COL, AGG_RIGHT_OK_COL, AGG_WIDTH,
};
use wqc_recursion::air::{
    RecursiveAggregationAir, REC_AGG_WIDTH, REC_LEFT_KIND_COL, REC_LEFT_OK_COL,
    REC_LEFT_PCS_OK_COL, REC_RIGHT_AGG_ROW_COL, REC_RIGHT_KIND_COL, REC_RIGHT_OK_COL,
    REC_RIGHT_PCS_OK_COL,
};
use wqc_recursion::air_m1::{
    RecursiveAggregationAirM1, REC_AGG_M1_WIDTH, REC_M1_LEFT_OK_COL, REC_M1_RIGHT_OK_COL,
};
use wqc_recursion::circle::{point_v_n, CircPoint};
use wqc_recursion::constraint::RowEvaluator;
use wqc_recursion::deep_ro_native::{
    deep_quotient_reduce_row, deep_ro_leaf_trace_witness, deep_ro_trace_witness,
    deep_ro_w3_witness, DeepRoError,
};
use wqc_recursion::ext::Challenge;
use wqc_recursion::field::Val;
use wqc_recursion::domains::quotient_chunk_logs;
use wqc_recursion::fri_fold_air::{
    fri_fold_step_limbs_x, fri_fold_step_limbs_y, fri_fold_x_native_ok, fri_fold_y_native_ok,
    FriFoldError, FriFoldStepProof,
};
use wqc_recursion::fri_fold_bind::AggFriFoldBundle;
use wqc_recursion::fri_fold_group::{
    generate_fri_fold_group_proof, verify_fri_fold_group_proof, FriFoldGroupAir,
    FriFoldGroupProof, FRI_FOLD_KIND_X, FRI_FOLD_KIND_Y, FRI_FOLD_KIND_YX,
};
use wqc_recursion::fri_fold_m4c::{
    apply_leaf_fri_fold_m4c_folds, apply_leaf_fri_fold_m4c_folds_with_queries,
};
use wqc_recursion::fri_fold_native::{
    challenge_to_limbs, fold_x_row, fold_y_row, limbs_to_challenge, solve_v0_for_fold,
    solve_v1_for_fold, try_solve_v1_for_fold,
};
use wqc_recursion::matrix::RowMajorMatrix;

fn random_challenge(rng: &mut rand::rngs::StdRng) -> Challenge {
    Challenge::new([
        Val::from_u32(rng.gen()),
        Val::from_u32(rng.gen()),
        Val::from_u32(rng.gen()),
    ])
}

#[test]
fn honest_agg_rows_pass() {
    let mut row = vec![Val::zero(); AGG_WIDTH];
    for i in 0..64 {
        row[i] = Val::from_u32(i as u32);
    }
    row[AGG_LEFT_OK_COL] = Val::one();
    row[AGG_RIGHT_OK_COL] = Val::one();
    assert!(aggregation_air_constraints_hold(&row, &row));
}

#[test]
fn bad_ok_flag_fails() {
    let row = vec![Val::zero(); AGG_WIDTH];
    assert!(!aggregation_air_constraints_hold(&row, &row));
}

#[test]
fn fold_roundtrip_solve_v0() {
    let mut rng = rand::rngs::StdRng::seed_from_u64(7);
    for log_h in [1usize, 2, 3] {
        for index in 0..(1usize << log_h).min(8) {
            let beta = random_challenge(&mut rng);
            let v0 = random_challenge(&mut rng);
            let v1 = random_challenge(&mut rng);
            let out = fold_x_row(index, log_h, beta, v0, v1);
            let recovered = solve_v0_for_fold(index, log_h, beta, v1, out);
            assert_eq!(recovered, v0);
        }
    }
}

#[test]
fn fold_roundtrip_solve_v1() {
    let mut rng = rand::rngs::StdRng::seed_from_u64(9);
    for log_h in [1usize, 2, 3] {
        for index in 0..(1usize << log_h).min(8) {
            let beta = random_challenge(&mut rng);
            let v0 = random_challenge(&mut rng);
            let v1 = random_challenge(&mut rng);
            let out = fold_x_row(index, log_h, beta, v0, v1);
            let recovered = solve_v1_for_fold(index, log_h, beta, v0, out);
            assert_eq!(recovered, v1);
        }
    }
}

#[test]
fn limbs_roundtrip() {
    let c = Challenge::new([Val::from_u32(1), Val::from_u32(2), Val::from_u32(3)]);
    assert_eq!(limbs_to_challenge(challenge_to_limbs(c)), c);
}

#[test]
fn fold_of_equal_values_keeps_them() {
    let v = Challenge::from_words(5, 6, 7);
    let beta = Challenge::from_words(9, 1, 4);
    assert_eq!(fold_x_row(1, 2, beta, v, v), v);
    assert_eq!(fold_y_row(1, 2, beta, v, v), v);
    assert_eq!(
        try_solve_v1_for_fold(0, 1, Challenge::zero(), v, v),
        Some(v)
    );
}

#[test]
fn fold_positions_are_bounded() {
    let c = Challenge::one();
    assert_eq!(
        fri_fold_step_limbs_x(0, 17, c, c, c).map(|s| s.index),
        Err(FriFoldError::LogHeightOutOfRange)
    );
    assert_eq!(
        fri_fold_step_limbs_x(4, 2, c, c, c).map(|s| s.index),
        Err(FriFoldError::IndexOutOfRange)
    );
}

fn lambda_correct(ro: Challenge, lambda: Challenge, sx: Val, log_n: usize) -> Challenge {
    ro.minus(&lambda.scale(&point_v_n(sx, log_n)))
}

#[test]
fn deep_ro_w3_matches_reduce_plus_lambda() {
    let mut rng = rand::rngs::StdRng::seed_from_u64(42);
    let alpha = random_challenge(&mut rng);
    let zeta = random_challenge(&mut rng);
    let sx = Val::from_u32(3);
    let sy = Val::from_u32(5);
    let px = [Val::from_u32(1), Val::from_u32(2), Val::from_u32(3)];
    let pz = [
        Challenge::from_words(1, 0, 0),
        Challenge::from_words(0, 1, 0),
        Challenge::from_words(0, 0, 1),
    ];
    let lambda = Challenge::from_words(7, 8, 9);
    let log_n = 2usize;
    let w = deep_ro_w3_witness(alpha, sx, sy, zeta, px, pz, lambda, log_n);
    let ro = deep_quotient_reduce_row(alpha, sx, sy, zeta, &px, &pz);
    assert_eq!(w.out, lambda_correct(ro, lambda, sx, log_n));
}

#[test]
fn deep_ro_trace_matches_fri_ro_formula() {
    let mut rng = rand::rngs::StdRng::seed_from_u64(99);
    let alpha = random_challenge(&mut rng);
    let zeta = random_challenge(&mut rng);
    let zeta_next = random_challenge(&mut rng);
    let sx = Val::from_u32(3);
    let sy = Val::from_u32(5);
    let mut px = [Val::zero(); 66];
    let mut pz_local = [Challenge::zero(); 66];
    let mut pz_next = [Challenge::zero(); 66];
    for i in 0..66 {
        px[i] = Val::from_u32(rng.gen::<u32>() % 100);
        pz_local[i] = Challenge::from_base(Val::from_u32(rng.gen::<u32>() % 100));
        pz_next[i] = Challenge::from_base(Val::from_u32(rng.gen::<u32>() % 100));
    }
    let lambda = Challenge::from_words(1, 2, 3);
    let log_n = 3usize;
    let w = deep_ro_trace_witness(
        alpha, sx, sy, zeta, zeta_next, &px, &pz_local, &pz_next, lambda, log_n,
    );
    let ro0 = deep_quotient_reduce_row(alpha, sx, sy, zeta, &px, &pz_local);
    let ro1 = deep_quotient_reduce_row(alpha, sx, sy, zeta_next, &px, &pz_next);
    let alpha132 = alpha.exp(66).square();
    let expect = lambda_correct(ro0.plus(&alpha132.times(&ro1)), lambda, sx, log_n);
    assert_eq!(w.out, expect);
    assert_eq!(w.deep0.out_pre, ro0);
    assert_eq!(w.deep1.out_pre, ro1);
}

#[test]
fn leaf_reduction_errors() {
    let c = Challenge::from_words(1, 2, 3);
    let reduce = |px: &[Val], pz: &[Challenge]| {
        deep_ro_leaf_trace_witness(
            c,
            Val::from_u32(3),
            Val::from_u32(5),
            c,
            c,
            px,
            pz,
            pz,
            c,
            2,
        )
        .map(|w| w.v_n)
    };
    assert_eq!(reduce(&[], &[]), Err(DeepRoError::Width(0)));
    assert_eq!(
        reduce(&[Val::one(); 69], &[c; 69]),
        Err(DeepRoError::Width(69))
    );
    assert_eq!(
        reduce(&[Val::one(); 2], &[c; 3]),
        Err(DeepRoError::PzWidth)
    );
    assert!(reduce(&[Val::one(); 2], &[c; 2]).is_ok());
}

#[test]
fn generators_have_their_order() {
    let g = CircPoint::generator(3);
    assert_eq!(g.mul_usize(8).x, Val::one());
    assert_eq!(g.mul_usize(8).y, Val::zero());
    assert_ne!(g.mul_usize(4).x, Val::one());
}

#[test]
fn fold_markers_strip_bytes() {
    let c = Challenge::from_words(1, 2, 3);
    let mut step = fri_fold_step_limbs_x(0, 2, c, c, c).expect("step");
    step.fold_stark = vec![1, 2, 3];
    let mut bundle = AggFriFoldBundle {
        fold_ys: vec![],
        fold_xs: vec![step.clone()],
    };
    assert!(apply_leaf_fri_fold_m4c_folds(&mut bundle).is_ok());
    assert!(bundle.fold_xs[0].fold_stark.is_empty());
    assert_eq!(bundle.fold_xs[0].out_limbs, step.out_limbs);
    assert!(apply_leaf_fri_fold_m4c_folds_with_queries(&mut bundle, 8).is_ok());
}

fn rec_rows_hold(row: &[Val], next: &[Val]) -> bool {
    let mut values = row.to_vec();
    values.extend_from_slice(next);
    let m = RowMajorMatrix {
        values,
        width: REC_AGG_WIDTH,
    };
    let mut sink = RowEvaluator::new();
    RecursiveAggregationAir.eval(&mut sink, &m.window(0, &vec![]));
    sink.satisfied()
}

#[test]
fn recursive_rows_are_checked() {
    let mut row: Vec<Val> = (0..REC_AGG_WIDTH).map(|i| Val::from_u32(i as u32 % 251)).collect();
    for col in [
        REC_LEFT_OK_COL,
        REC_RIGHT_OK_COL,
        REC_LEFT_PCS_OK_COL,
        REC_RIGHT_PCS_OK_COL,
        REC_RIGHT_KIND_COL,
        REC_RIGHT_AGG_ROW_COL + AGG_LEFT_OK_COL,
        REC_RIGHT_AGG_ROW_COL + AGG_RIGHT_OK_COL,
    ] {
        row[col] = Val::one();
    }
    row[REC_LEFT_KIND_COL] = Val::zero();
    assert!(rec_rows_hold(&row, &row));
    let mut other = row.clone();
    other[REC_LEFT_OK_COL] = Val::zero();
    assert!(!rec_rows_hold(&other, &other));
    let mut other = row.clone();
    other[0] = other[0].plus(&Val::one());
    assert!(!rec_rows_hold(&row, &other));
    let mut other = row.clone();
    other[REC_RIGHT_AGG_ROW_COL + AGG_LEFT_OK_COL] = Val::zero();
    assert!(!rec_rows_hold(&other, &other));
    assert_eq!(RecursiveAggregationAir.width(), 330);
    assert_eq!(RecursiveAggregationAir.max_constraint_degree(), Some(2));
}

#[test]
fn first_recursive_rows_are_checked() {
    let mut row: Vec<Val> = vec![Val::zero(); REC_AGG_M1_WIDTH];
    row[REC_M1_LEFT_OK_COL] = Val::one();
    row[REC_M1_RIGHT_OK_COL] = Val::one();
    let holds = |r: &[Val]| {
        let m = RowMajorMatrix {
            values: r.repeat(2),
            width: REC_AGG_M1_WIDTH,
        };
        let mut sink = RowEvaluator::new();
        RecursiveAggregationAirM1.eval(&mut sink, &m.window(0, &vec![]));
        sink.satisfied()
    };
    assert!(holds(&row));
    row[REC_M1_LEFT_OK_COL] = Val::from_u32(2);
    assert!(!holds(&row));
    assert_eq!(RecursiveAggregationAirM1.width(), 132);
    assert_eq!(RecursiveAggregationAirM1.max_constraint_degree(), Some(2));
}

fn group_bytes(_: &FriFoldGroupAir, _: &RowMajorMatrix, _: &[Val]) -> Result<Vec<u8>, String> {
    Ok(vec![1])
}

fn group_accepts(_: &FriFoldGroupAir, _: &[Val], bytes: &[u8]) -> bool {
    bytes == [1]
}

fn fold_steps(axes: &[bool], log_h: usize) -> Vec<FriFoldStepProof> {
    let mut rng = rand::rngs::StdRng::seed_from_u64(31);
    axes.iter()
        .enumerate()
        .map(|(i, y)| {
            let (a, b, c) = (
                random_challenge(&mut rng),
                random_challenge(&mut rng),
                random_challenge(&mut rng),
            );
            if *y {
                fri_fold_step_limbs_y(i, log_h, a, b, c).expect("y")
            } else {
                fri_fold_step_limbs_x(i, log_h, a, b, c).expect("x")
            }
        })
        .collect()
}

#[test]
fn altered_fold_groups_are_refused() {
    for (kind, axes) in [
        (FRI_FOLD_KIND_Y, [true, true, true]),
        (FRI_FOLD_KIND_X, [false, false, false]),
        (FRI_FOLD_KIND_YX, [true, false, false]),
    ] {
        let steps = fold_steps(&axes, 3);
        let made =
            generate_fri_fold_group_proof(kind, &steps, Some(3), &group_bytes).expect("group");
        assert_eq!(made.kind, kind);
        assert_eq!(made.step_count, 3);
        assert_eq!(made.log_folded_height, 3);
        assert!(verify_fri_fold_group_proof(&steps, &made, &group_accepts));
        for other in 0..=255u8 {
            let q = FriFoldGroupProof { kind: other, ..made.clone() };
            let verdict = verify_fri_fold_group_proof(&steps, &q, &group_accepts);
            assert_eq!(verdict, other == kind);
        }
        for count in [0u32, 2, 4] {
            let q = FriFoldGroupProof { step_count: count, ..made.clone() };
            assert!(!verify_fri_fold_group_proof(&steps, &q, &group_accepts));
        }
        let q = FriFoldGroupProof { log_folded_height: 2, ..made.clone() };
        assert!(!verify_fri_fold_group_proof(&steps, &q, &group_accepts));
        let q = FriFoldGroupProof { log_folded_height: u32::MAX, ..made.clone() };
        assert!(verify_fri_fold_group_proof(&steps, &q, &group_accepts));
        let mixed =
            generate_fri_fold_group_proof(kind, &steps, None, &group_bytes).expect("group");
        assert_eq!(mixed.log_folded_height, u32::MAX);
    }
}

#[test]
fn a_step_folds_on_one_axis() {
    for log_h in 1..=16 {
        for s in fold_steps(&[true, true], log_h) {
            assert!(fri_fold_y_native_ok(&s));
            assert!(!fri_fold_x_native_ok(&s));
        }
        for s in fold_steps(&[false, false], log_h) {
            assert!(fri_fold_x_native_ok(&s));
            assert!(!fri_fold_y_native_ok(&s));
        }
    }
}

#[test]
fn quotient_domains_reach_the_largest_one() {
    assert_eq!(quotient_chunk_logs(29, 1), vec![30]);
    assert_eq!(quotient_chunk_logs(29, 2), vec![29, 29]);
    assert_eq!(quotient_chunk_logs(28, 4), vec![28; 4]);
}
