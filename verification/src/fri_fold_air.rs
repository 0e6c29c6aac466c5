//! The fold equation as a constraint system over public values.
//!
//! Publics: index, log of the folded height, inverse twiddle, then `beta`, `v0`, `v1` and
//! `out` with three limbs each.
use vstd::prelude::*;

use crate::bits::{exp2, lemma_exp2_monotone, pow2_usize};
use crate::constraint::{all_zero, lemma_all_zero_concat, ConstraintSink, Expr, Window, WindowVals};
use crate::ef_limbs::{
    ef_add_limbs, ef_assert_eq, ef_halve_limbs, ef_mul_limbs, ef_scale_by_base, ef_sub_limbs,
    lemma_limb_differences, limb_differences, limbs, limbs_at, read_limbs,
};
use crate::ext::{ecanonical, Challenge, Ext};
use crate::ext_ring::lemma_escale_is_emul;
use crate::field::{vals, Val, P};
use crate::flag_air::{
    constrain_flag, ext_seq, flag_constraints, flag_matrix, is_flag_trace, limb_ext,
    push_challenge,
};
use crate::fri_fold_native::{
    challenge_to_limbs, fold_pair, fold_with_twiddle, fold_x_twiddle_inv, fold_y_twiddle_inv,
    limbs_to_challenge, x_fold_ok, x_twiddle_inv, y_fold_ok, y_twiddle_inv,
};
use crate::matrix::{push_val, RowMajorMatrix};
use crate::proof_system::{
    ask_prover, ask_verifier, prover_ready, prover_reply, verifier_ready, verifier_verdict,
};

verus! {

/// Number of public values.
pub const FRI_FOLD_NUM_PUBLIC: usize = 15;

/// Trace width: one flag column.
pub const FRI_FOLD_WIDTH: usize = 1;

/// The largest log of a folded height that is proven.
pub const FRI_FOLD_MAX_LOG_HEIGHT: usize = 16;

/// The constraint system of one fold.
#[derive(Copy, Clone, Debug)]
pub struct FriFoldAir;

impl FriFoldAir {
    pub fn width(&self) -> (r: usize)
        ensures
            r == FRI_FOLD_WIDTH,
    {
        FRI_FOLD_WIDTH
    }

    pub fn max_constraint_degree(&self) -> (r: Option<usize>)
        ensures
            r == Some(2usize),
    {
        Some(2)
    }

    pub fn num_public_values(&self) -> (r: usize)
        ensures
            r == FRI_FOLD_NUM_PUBLIC,
    {
        FRI_FOLD_NUM_PUBLIC
    }

    /// The flag constraints and `out = fold(t, beta, v0, v1)`.
    pub open spec fn constraints(&self, w: WindowVals) -> Seq<int> {
        flag_constraints(w) + fold_equation(
            w.pv[2],
            limbs_at(w.pv, 3),
            limbs_at(w.pv, 6),
            limbs_at(w.pv, 9),
            limbs_at(w.pv, 12),
        )
    }

    /// Emits the constraints.
    pub fn eval<S: ConstraintSink>(&self, sink: &mut S, w: &Window<S::E>)
        requires
            w.curr@.len() >= FRI_FOLD_WIDTH,
            w.next@.len() >= FRI_FOLD_WIDTH,
            w.pv@.len() >= FRI_FOLD_NUM_PUBLIC,
        ensures
            final(sink).emitted() == old(sink).emitted() + self.constraints(w@),
    {
        let ghost base = sink.emitted();
        constrain_flag(sink, w);
        let pv: &[S::E] = w.pv.as_slice();
        let beta = read_limbs(pv, 3);
        let v0 = read_limbs(pv, 6);
        let v1 = read_limbs(pv, 9);
        let out = read_limbs(pv, 12);
        constrain_fold(sink, &pv[2], &beta, &v0, &v1, &out);
        proof {
            assert(sink.emitted() =~= base + self.constraints(w@));
        }
    }
}

/// `out - fold(t, beta, v0, v1)`, limb by limb.
pub open spec fn fold_equation(t: int, beta: Ext, v0: Ext, v1: Ext, out: Ext) -> Seq<int> {
    limb_differences(fold_pair(t, beta, v0, v1), out)
}

/// Emits the fold equation.
pub fn constrain_fold<S: ConstraintSink>(
    sink: &mut S,
    t: &S::E,
    beta: &[S::E; 3],
    v0: &[S::E; 3],
    v1: &[S::E; 3],
    out: &[S::E; 3],
)
    ensures
        final(sink).emitted() == old(sink).emitted() + fold_equation(
            t.val(),
            limbs(beta@),
            limbs(v0@),
            limbs(v1@),
            limbs(out@),
        ),
{
    let sum = ef_add_limbs(v0, v1);
    let diff = ef_sub_limbs(v0, v1);
    let diff_t = ef_scale_by_base(&diff, t);
    let beta_diff_t = ef_mul_limbs(beta, &diff_t);
    let sum_plus = ef_add_limbs(&sum, &beta_diff_t);
    let expected = ef_halve_limbs(&sum_plus);
    proof {
        lemma_escale_is_emul(limbs(diff@), t.val());
    }
    ef_assert_eq(sink, &expected, out);
}

/// The fold equation vanishes exactly when `out` is the fold.
pub proof fn lemma_fold_equation_exact(t: int, beta: Ext, v0: Ext, v1: Ext, out: Ext)
    requires
        ecanonical(out),
    ensures
        all_zero(fold_equation(t, beta, v0, v1, out)) <==> out == fold_pair(t, beta, v0, v1),
{
    lemma_limb_differences(fold_pair(t, beta, v0, v1), out);
}

/// A row pair satisfies the fold system exactly when its flag is set and kept and `out` is the
/// fold of `v0` and `v1`.
pub proof fn lemma_fold_air_exact(w: WindowVals)
    requires
        ecanonical(limbs_at(w.pv, 12)),
    ensures
        all_zero(FriFoldAir.constraints(w)) <==> all_zero(flag_constraints(w)) && limbs_at(w.pv, 12)
            == fold_pair(w.pv[2], limbs_at(w.pv, 3), limbs_at(w.pv, 6), limbs_at(w.pv, 9)),
{
    let out = limbs_at(w.pv, 12);
    lemma_all_zero_concat(
        flag_constraints(w),
        fold_equation(w.pv[2], limbs_at(w.pv, 3), limbs_at(w.pv, 6), limbs_at(w.pv, 9), out),
    );
    lemma_fold_equation_exact(
        w.pv[2],
        limbs_at(w.pv, 3),
        limbs_at(w.pv, 6),
        limbs_at(w.pv, 9),
        out,
    );
}

/// The publics of one fold.
pub open spec fn fold_publics(
    index: u32,
    log_folded_height: u32,
    t: int,
    beta: Ext,
    v0: Ext,
    v1: Ext,
    out: Ext,
) -> Seq<int> {
    seq![index as int % P as int, log_folded_height as int % P as int, t] + ext_seq(beta)
        + ext_seq(v0) + ext_seq(v1) + ext_seq(out)
}

/// The publics of one fold.
pub fn build_public_values(
    index: u32,
    log_folded_height: u32,
    t_inv: Val,
    beta: Challenge,
    v0: Challenge,
    v1: Challenge,
    out: Challenge,
) -> (pv: Vec<Val>)
    ensures
        vals(pv@) == fold_publics(index, log_folded_height, t_inv@, beta@, v0@, v1@, out@),
        pv@.len() == FRI_FOLD_NUM_PUBLIC,
{
    let mut pv: Vec<Val> = Vec::new();
    push_val(&mut pv, Val::from_u32(index));
    push_val(&mut pv, Val::from_u32(log_folded_height));
    push_val(&mut pv, t_inv);
    proof {
        assert(vals(pv@) =~= seq![
            index as int % P as int,
            log_folded_height as int % P as int,
            t_inv@,
        ]);
    }
    push_challenge(&mut pv, &beta);
    push_challenge(&mut pv, &v0);
    push_challenge(&mut pv, &v1);
    push_challenge(&mut pv, &out);
    pv
}

/// One fold with its proof bytes; empty bytes mean that the fold is checked directly.
#[derive(Debug, Clone, PartialEq, Eq)]
pub struct FriFoldStepProof {
    pub index: u32,
    pub log_folded_height: u32,
    pub t_inv: Val,
    pub beta_limbs: [Val; 3],
    pub v0_limbs: [Val; 3],
    pub v1_limbs: [Val; 3],
    pub out_limbs: [Val; 3],
    pub fold_stark: Vec<u8>,
}

impl FriFoldStepProof {
    pub open spec fn beta(self) -> Ext {
        limb_ext(self.beta_limbs@)
    }

    pub open spec fn v0(self) -> Ext {
        limb_ext(self.v0_limbs@)
    }

    pub open spec fn v1(self) -> Ext {
        limb_ext(self.v1_limbs@)
    }

    pub open spec fn out(self) -> Ext {
        limb_ext(self.out_limbs@)
    }

    /// The publics the step stands for.
    pub open spec fn publics(self) -> Seq<int> {
        fold_publics(
            self.index,
            self.log_folded_height,
            self.t_inv@,
            self.beta(),
            self.v0(),
            self.v1(),
            self.out(),
        )
    }
}

/// Which of the two folds a step claims.
#[derive(Copy, Clone, Debug, PartialEq, Eq)]
pub enum FoldAxis {
    /// The first, ordinate fold.
    Y,
    /// A later, abscissa fold.
    X,
}

/// The inverse twiddle on an axis.
pub open spec fn axis_twiddle_inv(axis: FoldAxis, index: int, log_folded_height: nat) -> int {
    match axis {
        FoldAxis::Y => y_twiddle_inv(index, log_folded_height),
        FoldAxis::X => x_twiddle_inv(index, log_folded_height),
    }
}

/// The positions a fold on an axis is defined on.
pub open spec fn axis_fold_ok(axis: FoldAxis, index: int, log_folded_height: int) -> bool {
    match axis {
        FoldAxis::Y => y_fold_ok(log_folded_height),
        FoldAxis::X => x_fold_ok(index, log_folded_height),
    }
}

/// A step states a fold on `axis`: its position is in range, its twiddle is the one of that
/// position and its output is the fold of its inputs.
pub open spec fn step_holds(axis: FoldAxis, s: FriFoldStepProof) -> bool {
    let t = axis_twiddle_inv(axis, s.index as int, s.log_folded_height as nat);
    &&& axis_fold_ok(axis, s.index as int, s.log_folded_height as int)
    &&& s.t_inv@ == t
    &&& s.out() == fold_pair(t, s.beta(), s.v0(), s.v1())
}

/// Whether a fold on `axis` is defined at a position.
fn axis_in_range(axis: FoldAxis, index: usize, log_folded_height: usize) -> (r: bool)
    ensures
        r == axis_fold_ok(axis, index as int, log_folded_height as int),
{
    match axis {
        FoldAxis::X => log_folded_height <= 28 && (log_folded_height > 0 || index == 0),
        FoldAxis::Y => log_folded_height <= 29,
    }
}

/// The inverse twiddle of a fold.
fn axis_twiddle(axis: FoldAxis, index: usize, log_folded_height: usize) -> (r: Val)
    requires
        axis_fold_ok(axis, index as int, log_folded_height as int),
    ensures
        r@ == axis_twiddle_inv(axis, index as int, log_folded_height as nat),
        axis is X ==> r@ != y_twiddle_inv(index as int, log_folded_height as nat),
{
    match axis {
        FoldAxis::Y => fold_y_twiddle_inv(index, log_folded_height),
        FoldAxis::X => fold_x_twiddle_inv(index, log_folded_height),
    }
}

/// Checks a step directly. A step that states an abscissa fold states no ordinate fold.
pub fn fold_step_ok(axis: FoldAxis, step: &FriFoldStepProof) -> (r: bool)
    ensures
        r == step_holds(axis, *step),
        r && axis is X ==> !step_holds(FoldAxis::Y, *step),
{
    let index: usize = step.index as usize;
    let log_h: usize = step.log_folded_height as usize;
    if !axis_in_range(axis, index, log_h) {
        return false;
    }
    let t = axis_twiddle(axis, index, log_h);
    if !step.t_inv.same(&t) {
        return false;
    }
    let beta = limbs_to_challenge(step.beta_limbs);
    let v0 = limbs_to_challenge(step.v0_limbs);
    let v1 = limbs_to_challenge(step.v1_limbs);
    let out = limbs_to_challenge(step.out_limbs);
    let expect = fold_with_twiddle(t, beta, v0, v1);
    out.same(&expect)
}

/// Whether a step states an abscissa fold.
pub fn fri_fold_x_native_ok(step: &FriFoldStepProof) -> (r: bool)
    ensures
        r == step_holds(FoldAxis::X, *step),
{
    fold_step_ok(FoldAxis::X, step)
}

/// Whether a step states an ordinate fold.
pub fn fri_fold_y_native_ok(step: &FriFoldStepProof) -> (r: bool)
    ensures
        r == step_holds(FoldAxis::Y, *step),
{
    fold_step_ok(FoldAxis::Y, step)
}

/// Checks an abscissa fold directly.
pub fn verify_fri_fold_x_native(step: &FriFoldStepProof) -> (r: bool)
    ensures
        r == step_holds(FoldAxis::X, *step),
{
    fold_step_ok(FoldAxis::X, step)
}

/// Checks an ordinate fold directly.
pub fn verify_fri_fold_y_native(step: &FriFoldStepProof) -> (r: bool)
    ensures
        r == step_holds(FoldAxis::Y, *step),
{
    fold_step_ok(FoldAxis::Y, step)
}

/// Why a fold was not proven.
#[derive(Debug, Clone, PartialEq, Eq)]
pub enum FriFoldError {
    /// The log of the folded height is zero or too large.
    LogHeightOutOfRange,
    /// The index does not exist at this height.
    IndexOutOfRange,
    /// The proof system reported an error.
    Backend(String),
}

/// Why a position is not accepted for proving, if so.
pub open spec fn position_report(index: int, log_folded_height: int) -> Option<FriFoldError> {
    if log_folded_height == 0 || log_folded_height > FRI_FOLD_MAX_LOG_HEIGHT {
        Some(FriFoldError::LogHeightOutOfRange)
    } else if index >= exp2(log_folded_height as nat) {
        Some(FriFoldError::IndexOutOfRange)
    } else {
        None
    }
}

/// The step for the given inputs: everything but the proof bytes.
pub open spec fn is_step_of(
    axis: FoldAxis,
    s: FriFoldStepProof,
    index: int,
    log_folded_height: int,
    beta: Ext,
    v0: Ext,
    v1: Ext,
) -> bool {
    &&& s.index == index
    &&& s.log_folded_height == log_folded_height
    &&& s.beta() == beta
    &&& s.v0() == v0
    &&& s.v1() == v1
    &&& step_holds(axis, s)
}

/// The step for the given inputs, with no proof bytes.
pub fn fold_step_limbs(
    axis: FoldAxis,
    index: usize,
    log_folded_height: usize,
    beta: Challenge,
    v0: Challenge,
    v1: Challenge,
) -> (r: Result<FriFoldStepProof, FriFoldError>)
    ensures
        match position_report(index as int, log_folded_height as int) {
            Some(e) => r == Err::<FriFoldStepProof, FriFoldError>(e),
            None => r matches Ok(s) && is_step_of(
                axis,
                s,
                index as int,
                log_folded_height as int,
                beta@,
                v0@,
                v1@,
            ) && s.fold_stark@.len() == 0,
        },
{
    if log_folded_height == 0 || log_folded_height > FRI_FOLD_MAX_LOG_HEIGHT {
        return Err(FriFoldError::LogHeightOutOfRange);
    }
    proof {
        lemma_exp2_monotone(log_folded_height as nat, 30);
        crate::circle::lemma_exp2_30();
    }
    if index >= pow2_usize(log_folded_height) {
        return Err(FriFoldError::IndexOutOfRange);
    }
    let t_inv = axis_twiddle(axis, index, log_folded_height);
    let out = fold_with_twiddle(t_inv, beta, v0, v1);
    Ok(
        FriFoldStepProof {
            index: index as u32,
            log_folded_height: log_folded_height as u32,
            t_inv,
            beta_limbs: challenge_to_limbs(beta),
            v0_limbs: challenge_to_limbs(v0),
            v1_limbs: challenge_to_limbs(v1),
            out_limbs: challenge_to_limbs(out),
            fold_stark: Vec::new(),
        },
    )
}

/// The abscissa step for the given inputs, with no proof bytes.
pub fn fri_fold_step_limbs_x(
    index: usize,
    log_folded_height: usize,
    beta: Challenge,
    v0: Challenge,
    v1: Challenge,
) -> (r: Result<FriFoldStepProof, FriFoldError>)
    ensures
        match position_report(index as int, log_folded_height as int) {
            Some(e) => r == Err::<FriFoldStepProof, FriFoldError>(e),
            None => r matches Ok(s) && is_step_of(
                FoldAxis::X,
                s,
                index as int,
                log_folded_height as int,
                beta@,
                v0@,
                v1@,
            ) && s.fold_stark@.len() == 0,
        },
{
    fold_step_limbs(FoldAxis::X, index, log_folded_height, beta, v0, v1)
}

/// The ordinate step for the given inputs, with no proof bytes.
pub fn fri_fold_step_limbs_y(
    index: usize,
    log_folded_height: usize,
    beta: Challenge,
    v0: Challenge,
    v1: Challenge,
) -> (r: Result<FriFoldStepProof, FriFoldError>)
    ensures
        match position_report(index as int, log_folded_height as int) {
            Some(e) => r == Err::<FriFoldStepProof, FriFoldError>(e),
            None => r matches Ok(s) && is_step_of(
                FoldAxis::Y,
                s,
                index as int,
                log_folded_height as int,
                beta@,
                v0@,
                v1@,
            ) && s.fold_stark@.len() == 0,
        },
{
    fold_step_limbs(FoldAxis::Y, index, log_folded_height, beta, v0, v1)
}

/// The trace of the fold system.
pub open spec fn fold_trace() -> spec_fn(RowMajorMatrix) -> bool {
    |m: RowMajorMatrix| is_flag_trace(m, 2)
}

/// The publics of the fold of the given inputs.
pub open spec fn claimed_publics(
    axis: FoldAxis,
    index: int,
    log_folded_height: int,
    beta: Ext,
    v0: Ext,
    v1: Ext,
) -> Seq<int> {
    let t = axis_twiddle_inv(axis, index, log_folded_height as nat);
    fold_publics(
        index as u32,
        log_folded_height as u32,
        t,
        beta,
        v0,
        v1,
        fold_pair(t, beta, v0, v1),
    )
}

/// The outcome of proving a fold with `prover`.
pub open spec fn fold_prove_outcome<
    F: Fn(&FriFoldAir, &RowMajorMatrix, &[Val]) -> Result<Vec<u8>, String>,
>(
    prover: F,
    axis: FoldAxis,
    index: int,
    log_folded_height: int,
    beta: Ext,
    v0: Ext,
    v1: Ext,
    r: Result<FriFoldStepProof, FriFoldError>,
) -> bool {
    match position_report(index, log_folded_height) {
        Some(e) => r == Err::<FriFoldStepProof, FriFoldError>(e),
        None => match r {
            Ok(s) => is_step_of(axis, s, index, log_folded_height, beta, v0, v1) && prover_reply(
                prover,
                FriFoldAir,
                fold_trace(),
                s.publics(),
                Ok(s.fold_stark),
            ),
            Err(e) => e matches FriFoldError::Backend(text) && prover_reply(
                prover,
                FriFoldAir,
                fold_trace(),
                claimed_publics(axis, index, log_folded_height, beta, v0, v1),
                Err(text),
            ),
        },
    }
}

/// Proves a fold on either axis.
fn generate_fold_proof_on<
    F: Fn(&FriFoldAir, &RowMajorMatrix, &[Val]) -> Result<Vec<u8>, String>,
>(
    axis: FoldAxis,
    index: usize,
    log_folded_height: usize,
    beta: Challenge,
    v0: Challenge,
    v1: Challenge,
    prover: &F,
) -> (r: Result<FriFoldStepProof, FriFoldError>)
    requires
        prover_ready::<FriFoldAir, F>(*prover),
    ensures
        fold_prove_outcome(
            *prover,
            axis,
            index as int,
            log_folded_height as int,
            beta@,
            v0@,
            v1@,
            r,
        ),
{
    let mut step = match fold_step_limbs(axis, index, log_folded_height, beta, v0, v1) {
        Ok(s) => s,
        Err(e) => {
            return Err(e);
        },
    };
    let out = limbs_to_challenge(step.out_limbs);
    let pv = build_public_values(
        step.index,
        step.log_folded_height,
        step.t_inv,
        beta,
        v0,
        v1,
        out,
    );
    let matrix = flag_matrix(2);
    let air = FriFoldAir;
    match ask_prover(prover, &air, &matrix, &pv, Ghost(fold_trace())) {
        Ok(bytes) => {
            step.fold_stark = bytes;
            Ok(step)
        },
        Err(e) => Err(FriFoldError::Backend(e)),
    }
}

/// Proves an abscissa fold.
pub fn generate_fri_fold_proof<
    F: Fn(&FriFoldAir, &RowMajorMatrix, &[Val]) -> Result<Vec<u8>, String>,
>(
    index: usize,
    log_folded_height: usize,
    beta: Challenge,
    v0: Challenge,
    v1: Challenge,
    prover: &F,
) -> (r: Result<FriFoldStepProof, FriFoldError>)
    requires
        prover_ready::<FriFoldAir, F>(*prover),
    ensures
        fold_prove_outcome(
            *prover,
            FoldAxis::X,
            index as int,
            log_folded_height as int,
            beta@,
            v0@,
            v1@,
            r,
        ),
{
    generate_fold_proof_on(FoldAxis::X, index, log_folded_height, beta, v0, v1, prover)
}

/// Proves an ordinate fold.
pub fn generate_fri_fold_y_proof<
    F: Fn(&FriFoldAir, &RowMajorMatrix, &[Val]) -> Result<Vec<u8>, String>,
>(
    index: usize,
    log_folded_height: usize,
    beta: Challenge,
    v0: Challenge,
    v1: Challenge,
    prover: &F,
) -> (r: Result<FriFoldStepProof, FriFoldError>)
    requires
        prover_ready::<FriFoldAir, F>(*prover),
    ensures
        fold_prove_outcome(
            *prover,
            FoldAxis::Y,
            index as int,
            log_folded_height as int,
            beta@,
            v0@,
            v1@,
            r,
        ),
{
    generate_fold_proof_on(FoldAxis::Y, index, log_folded_height, beta, v0, v1, prover)
}

/// The verdict on a step: false where it does not state a fold on `axis`, else the verifier's
/// verdict on its proof bytes.
pub open spec fn fold_verify_outcome<V: Fn(&FriFoldAir, &[Val], &[u8]) -> bool>(
    verifier: V,
    axis: FoldAxis,
    s: FriFoldStepProof,
    r: bool,
) -> bool {
    if step_holds(axis, s) {
        verifier_verdict(verifier, FriFoldAir, s.publics(), s.fold_stark@, r)
    } else {
        !r
    }
}

/// Checks a fold proof on either axis.
fn verify_fold_proof_on<V: Fn(&FriFoldAir, &[Val], &[u8]) -> bool>(
    axis: FoldAxis,
    proof: &FriFoldStepProof,
    verifier: &V,
) -> (r: bool)
    requires
        verifier_ready::<FriFoldAir, V>(*verifier),
    ensures
        fold_verify_outcome(*verifier, axis, *proof, r),
{
    if !fold_step_ok(axis, proof) {
        return false;
    }
    let pv = build_public_values(
        proof.index,
        proof.log_folded_height,
        proof.t_inv,
        limbs_to_challenge(proof.beta_limbs),
        limbs_to_challenge(proof.v0_limbs),
        limbs_to_challenge(proof.v1_limbs),
        limbs_to_challenge(proof.out_limbs),
    );
    let air = FriFoldAir;
    ask_verifier(verifier, &air, &pv, &proof.fold_stark)
}

/// Checks an abscissa fold proof. A step outside the fold's domain is not valid.
pub fn verify_fri_fold_proof<V: Fn(&FriFoldAir, &[Val], &[u8]) -> bool>(
    proof: &FriFoldStepProof,
    verifier: &V,
) -> (r: bool)
    requires
        verifier_ready::<FriFoldAir, V>(*verifier),
    ensures
        fold_verify_outcome(*verifier, FoldAxis::X, *proof, r),
{
    verify_fold_proof_on(FoldAxis::X, proof, verifier)
}

/// Checks an ordinate fold proof. A step outside the fold's domain is not valid.
pub fn verify_fri_fold_y_proof<V: Fn(&FriFoldAir, &[Val], &[u8]) -> bool>(
    proof: &FriFoldStepProof,
    verifier: &V,
) -> (r: bool)
    requires
        verifier_ready::<FriFoldAir, V>(*verifier),
    ensures
        fold_verify_outcome(*verifier, FoldAxis::Y, *proof, r),
{
    verify_fold_proof_on(FoldAxis::Y, proof, verifier)
}

} // verus!
