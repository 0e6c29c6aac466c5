//! Many fold equations in one constraint system.
//!
//! Publics: the number of steps, the shared challenge where all steps fold with the same one,
//! then per step the inverse twiddle, the challenge unless it is shared, and the limbs of
//! `v0`, `v1` and `out`. Positions are not among the publics: they are checked directly.
use vstd::prelude::*;

use crate::constraint::{
    all_zero, evals, lemma_all_zero_concat, ConstraintSink, Expr, Window, WindowVals,
};
use crate::devnet::DEVNET_FRI_NUM_QUERIES;
use crate::ef_limbs::{limbs_at, read_limbs};
use crate::field::{fsub, lemma_val_canonical, vals, Val, P};
use crate::flag_air::{
    constrain_flag, ext_seq, flag_constraints, flag_matrix, is_flag_trace, push_limbs, same_limbs,
};
use crate::fri_fold_air::{
    constrain_fold, fold_equation, fri_fold_y_native_ok, lemma_fold_equation_exact, step_holds,
    FoldAxis, FriFoldStepProof, FRI_FOLD_WIDTH,
};
use crate::fri_fold_native::fold_pair;
use crate::matrix::{push_val, RowMajorMatrix};
use crate::path_gadgets::{flat, lemma_flat_all_zero, lemma_flat_even, lemma_flat_same};
use crate::proof_system::{
    ask_prover, ask_verifier, prover_ready, prover_reply, verifier_ready, verifier_verdict,
};

verus! {

/// The most steps one system holds.
pub const FRI_FOLD_GROUP_MAX_STEPS: usize = 256;

/// All steps are ordinate folds.
pub const FRI_FOLD_KIND_Y: u8 = 0;

/// All steps are abscissa folds.
pub const FRI_FOLD_KIND_X: u8 = 1;

/// Ordinate folds, then abscissa folds.
pub const FRI_FOLD_KIND_YX: u8 = 2;

/// The height entry of a group whose steps differ in height.
pub const MIXED_LOG_HEIGHT: u32 = u32::MAX;

const STEP_PUBLIC: usize = 10;

const EF_LIMBS: usize = 3;

/// One proof for `step_count` folds.
#[derive(Debug, Clone, PartialEq, Eq)]
pub struct FriFoldGroupProof {
    pub kind: u8,
    pub step_count: u32,
    /// The height all steps share, or [`MIXED_LOG_HEIGHT`].
    pub log_folded_height: u32,
    pub group_stark: Vec<u8>,
}

/// The constraint system of `step_count` folds.
#[derive(Copy, Clone, Debug)]
pub struct FriFoldGroupAir {
    pub step_count: usize,
    /// Every step folds with the same challenge, held once.
    pub shared_beta: bool,
}

/// Public values before the first step.
pub open spec fn header_width(shared_beta: bool) -> int {
    if shared_beta {
        4
    } else {
        1
    }
}

/// Public values of one step.
pub open spec fn step_width(shared_beta: bool) -> int {
    if shared_beta {
        10
    } else {
        13
    }
}

/// Number of public values.
pub open spec fn group_public_count(step_count: int, shared_beta: bool) -> int {
    header_width(shared_beta) + step_count * step_width(shared_beta)
}

/// The fold equation of step `i`.
pub open spec fn group_step_equation(pv: Seq<int>, shared_beta: bool, i: int) -> Seq<int> {
    let base = header_width(shared_beta) + i * step_width(shared_beta);
    let beta_base = if shared_beta {
        1
    } else {
        base + 1
    };
    let vals_base = if shared_beta {
        base + 1
    } else {
        base + 4
    };
    fold_equation(
        pv[base],
        limbs_at(pv, beta_base),
        limbs_at(pv, vals_base),
        limbs_at(pv, vals_base + 3),
        limbs_at(pv, vals_base + 6),
    )
}

impl FriFoldGroupAir {
    /// Number of public values.
    pub fn num_public(step_count: usize, shared_beta: bool) -> (r: usize)
        requires
            group_public_count(step_count as int, shared_beta) <= usize::MAX,
        ensures
            r == group_public_count(step_count as int, shared_beta),
    {
        if shared_beta {
            1 + EF_LIMBS + step_count * STEP_PUBLIC
        } else {
            1 + step_count * (STEP_PUBLIC + EF_LIMBS)
        }
    }

    pub fn width(&self) -> (r: usize)
        ensures
            r == FRI_FOLD_WIDTH,
    {
        FRI_FOLD_WIDTH
    }

    pub fn max_constraint_degree(&self) -> (r: Option<usize>)
        ensures
            r == Some(2usize),
    {
        Some(2)
    }

    pub fn num_public_values(&self) -> (r: usize)
        requires
            group_public_count(self.step_count as int, self.shared_beta) <= usize::MAX,
        ensures
            r == group_public_count(self.step_count as int, self.shared_beta),
    {
        Self::num_public(self.step_count, self.shared_beta)
    }

    /// The flag constraints, the step count, and one fold equation per step.
    pub open spec fn constraints(&self, w: WindowVals) -> Seq<int> {
        flag_constraints(w) + seq![fsub(w.pv[0], (self.step_count as u32) as int % P as int)]
            + flat(
            self.step_count as nat,
            |i: int| group_step_equation(w.pv, self.shared_beta, i),
        )
    }

    /// Emits the constraints.
    pub fn eval<S: ConstraintSink>(&self, sink: &mut S, w: &Window<S::E>)
        requires
            w.curr@.len() >= FRI_FOLD_WIDTH,
            w.next@.len() >= FRI_FOLD_WIDTH,
            w.pv@.len() >= group_public_count(self.step_count as int, self.shared_beta),
        ensures
            final(sink).emitted() == old(sink).emitted() + self.constraints(w@),
    {
        let ghost e0 = sink.emitted();
        constrain_flag(sink, w);
        let pv: &[S::E] = w.pv.as_slice();
        let n: usize = pv.len();
        let ghost pvv = evals(pv@);
        let shared: bool = self.shared_beta;
        let stride: usize = if shared {
            STEP_PUBLIC
        } else {
            STEP_PUBLIC + EF_LIMBS
        };
        let header: usize = if shared {
            1 + EF_LIMBS
        } else {
            1
        };
        proof {
            assert(self.step_count * stride >= 0) by (nonlinear_arith)
                requires
                    self.step_count >= 0,
                    stride >= 0,
            ;
        }
        let count = <S::E as Expr>::lit(self.step_count as u32);
        sink.assert_zero(pv[0].minus(&count));
        let ghost f = |i: int| group_step_equation(w@.pv, self.shared_beta, i);
        let ghost e1 = sink.emitted();
        proof {
            assert(pvv == w@.pv);
            assert(e1 + flat(0, f) =~= e1);
        }
        let mut i: usize = 0;
        while i < self.step_count
            invariant
                i <= self.step_count,
                n == pv@.len(),
                pvv == evals(pv@),
                pvv == w@.pv,
                shared == self.shared_beta,
                stride == step_width(shared),
                header == header_width(shared),
                n >= header + self.step_count * stride,
                f == (|i: int| group_step_equation(w@.pv, self.shared_beta, i)),
                sink.emitted() == e1 + flat(i as nat, f),
            decreases self.step_count - i,
        {
            proof {
                assert(i * stride + stride <= self.step_count * stride) by (nonlinear_arith)
                    requires
                        i < self.step_count,
                        stride >= 0,
                ;
                assert(0 <= i * stride) by (nonlinear_arith)
                    requires
                        i >= 0,
                        stride >= 0,
                ;
            }
            let base: usize = header + i * stride;
            let beta_base: usize = if shared {
                1
            } else {
                base + 1
            };
            let vals_base: usize = if shared {
                base + 1
            } else {
                base + 1 + EF_LIMBS
            };
            let beta = read_limbs(pv, beta_base);
            let v0 = read_limbs(pv, vals_base);
            let v1 = read_limbs(pv, vals_base + 3);
            let out = read_limbs(pv, vals_base + 6);
            constrain_fold(sink, &pv[base], &beta, &v0, &v1, &out);
            proof {
                assert(pvv[base as int] == pv@[base as int].val());
                assert(f(i as int) == group_step_equation(w@.pv, self.shared_beta, i as int));
                assert(flat((i + 1) as nat, f) =~= flat(i as nat, f) + f(i as int));
                assert(sink.emitted() =~= e1 + flat((i + 1) as nat, f));
            }
            i += 1;
        }
        proof {
            assert(sink.emitted() =~= e0 + self.constraints(w@));
        }
    }
}

/// More than one step, all folding with the same challenge.
pub open spec fn shares_beta(steps: Seq<FriFoldStepProof>) -> bool {
    steps.len() > 1 && forall|i: int|
        0 <= i < steps.len() ==> (#[trigger] steps[i]).beta() == steps[0].beta()
}

/// Whether more than one step fold with the same challenge.
pub fn betas_are_shared(steps: &[FriFoldStepProof]) -> (r: bool)
    ensures
        r == shares_beta(steps@),
{
    if steps.len() <= 1 {
        return false;
    }
    let mut i: usize = 0;
    while i < steps.len()
        invariant
            i <= steps.len(),
            steps.len() > 1,
            forall|j: int| 0 <= j < i ==> (#[trigger] steps@[j]).beta() == steps@[0].beta(),
        decreases steps.len() - i,
    {
        if !same_limbs(&steps[i].beta_limbs, &steps[0].beta_limbs) {
            return false;
        }
        i += 1;
    }
    true
}

/// The publics of one step.
pub open spec fn step_publics(s: FriFoldStepProof, shared: bool) -> Seq<int> {
    seq![s.t_inv@] + (if shared {
        Seq::<int>::empty()
    } else {
        ext_seq(s.beta())
    }) + ext_seq(s.v0()) + ext_seq(s.v1()) + ext_seq(s.out())
}

/// The publics before the first step.
pub open spec fn header_publics(steps: Seq<FriFoldStepProof>) -> Seq<int> {
    seq![(steps.len() as u32) as int % P as int] + (if shares_beta(steps) {
        ext_seq(steps[0].beta())
    } else {
        Seq::<int>::empty()
    })
}

/// The publics of a group.
pub open spec fn fold_group_publics(steps: Seq<FriFoldStepProof>) -> Seq<int> {
    header_publics(steps) + flat(
        steps.len(),
        |i: int| step_publics(steps[i], shares_beta(steps)),
    )
}

/// The publics of a group.
pub fn build_group_public_values(steps: &[FriFoldStepProof]) -> (pv: Vec<Val>)
    ensures
        vals(pv@) == fold_group_publics(steps@),
{
    let shared = betas_are_shared(steps);
    let mut pv: Vec<Val> = Vec::new();
    push_val(&mut pv, Val::from_u32(steps.len() as u32));
    if shared {
        push_limbs(&mut pv, &steps[0].beta_limbs);
    }
    let ghost head = header_publics(steps@);
    let ghost g = |i: int| step_publics(steps@[i], shares_beta(steps@));
    proof {
        assert(vals(pv@) =~= head + flat(0, g));
    }
    let mut i: usize = 0;
    while i < steps.len()
        invariant
            i <= steps.len(),
            shared == shares_beta(steps@),
            head == header_publics(steps@),
            g == (|i: int| step_publics(steps@[i], shares_beta(steps@))),
            vals(pv@) == head + flat(i as nat, g),
        decreases steps.len() - i,
    {
        let s = &steps[i];
        push_val(&mut pv, s.t_inv);
        if !shared {
            push_limbs(&mut pv, &s.beta_limbs);
        }
        push_limbs(&mut pv, &s.v0_limbs);
        push_limbs(&mut pv, &s.v1_limbs);
        push_limbs(&mut pv, &s.out_limbs);
        proof {
            assert(g(i as int) == step_publics(steps@[i as int], shared));
            assert(flat((i + 1) as nat, g) =~= flat(i as nat, g) + g(i as int));
            assert(vals(pv@) =~= head + flat((i + 1) as nat, g));
        }
        i += 1;
    }
    pv
}

/// A group's publics read back, at the offsets of step `i`, the values of step `i`.
proof fn lemma_group_layout(steps: Seq<FriFoldStepProof>, i: int)
    requires
        0 <= i < steps.len(),
    ensures
        group_step_equation(fold_group_publics(steps), shares_beta(steps), i) == fold_equation(
            steps[i].t_inv@,
            steps[i].beta(),
            steps[i].v0(),
            steps[i].v1(),
            steps[i].out(),
        ),
        fold_group_publics(steps)[0] == (steps.len() as u32) as int % P as int,
{
    let shared = shares_beta(steps);
    let g = |i: int| step_publics(steps[i], shares_beta(steps));
    let k: nat = step_width(shared) as nat;
    let h: int = header_width(shared);
    let pv = fold_group_publics(steps);
    let body = flat(steps.len(), g);
    assert forall|j: int| 0 <= j < steps.len() implies (#[trigger] g(j)).len() == k by {}
    lemma_flat_even(steps.len(), g, k);
    assert(header_publics(steps).len() == h);
    assert(0 <= i * k && i * k + k <= body.len()) by {
        assert(i * k + k <= steps.len() * k) by (nonlinear_arith)
            requires
                0 <= i < steps.len(),
                k >= 0,
        ;
        assert(0 <= i * k) by (nonlinear_arith)
            requires
                0 <= i,
                k >= 0,
        ;
    }
    assert forall|j: int| 0 <= j < k implies #[trigger] pv[h + i * k + j] == g(i)[j] by {
        assert(body[i * k + j] == g(i)[j]);
    }
    let b: int = h + i * k;
    let block = g(i);
    assert forall|j: int| 0 <= j < k implies #[trigger] pv.subrange(b, b + k)[j] == block[j] by {
        assert(pv[h + i * k + j] == g(i)[j]);
    }
    assert(pv.subrange(b, b + k) =~= block);
    lemma_step_block(steps[i], shared);
    assert(pv[b] == pv.subrange(b, b + k)[0]);
    if shared {
        assert(pv.subrange(0, h) =~= header_publics(steps));
        lemma_limbs_shifted(pv, 0, h, 1);
        lemma_limbs_shifted(pv, b, b + k, 1);
        lemma_limbs_shifted(pv, b, b + k, 4);
        lemma_limbs_shifted(pv, b, b + k, 7);
        assert(steps[i].beta() == steps[0].beta());
    } else {
        lemma_limbs_shifted(pv, b, b + k, 1);
        lemma_limbs_shifted(pv, b, b + k, 4);
        lemma_limbs_shifted(pv, b, b + k, 7);
        lemma_limbs_shifted(pv, b, b + k, 10);
    }
}

/// Limbs read inside a range are limbs of that range.
proof fn lemma_limbs_shifted(pv: Seq<int>, a: int, b: int, o: int)
    requires
        0 <= a,
        b <= pv.len(),
        0 <= o,
        a + o + 3 <= b,
    ensures
        limbs_at(pv, a + o) == limbs_at(pv.subrange(a, b), o),
{
}

/// The values of a step at their offsets in its block.
proof fn lemma_step_block(s: FriFoldStepProof, shared: bool)
    ensures
        ({
            let block = step_publics(s, shared);
            let o: int = if shared {
                1
            } else {
                4
            };
            &&& block[0] == s.t_inv@
            &&& !shared ==> limbs_at(block, 1) == s.beta()
            &&& limbs_at(block, o) == s.v0()
            &&& limbs_at(block, o + 3) == s.v1()
            &&& limbs_at(block, o + 6) == s.out()
        }),
{
}

/// On a group's own publics, a row pair satisfies the group system exactly when its flag is set
/// and kept and the output of every step is the fold of its inputs.
pub proof fn lemma_group_air_exact(steps: Seq<FriFoldStepProof>, w: WindowVals)
    requires
        steps.len() > 0,
        steps.len() <= usize::MAX,
        w.pv == fold_group_publics(steps),
    ensures
        all_zero(
            (FriFoldGroupAir {
                step_count: steps.len() as usize,
                shared_beta: shares_beta(steps),
            }).constraints(w),
        ) <==> all_zero(flag_constraints(w)) && forall|i: int|
            0 <= i < steps.len() ==> (#[trigger] steps[i]).out() == fold_pair(
                steps[i].t_inv@,
                steps[i].beta(),
                steps[i].v0(),
                steps[i].v1(),
            ),
{
    broadcast use lemma_val_canonical;

    let air = FriFoldGroupAir {
        step_count: steps.len() as usize,
        shared_beta: shares_beta(steps),
    };
    let f = |i: int| group_step_equation(w.pv, air.shared_beta, i);
    let count = seq![fsub(w.pv[0], (air.step_count as u32) as int % P as int)];
    let head = flag_constraints(w) + count;
    lemma_all_zero_concat(flag_constraints(w), count);
    lemma_all_zero_concat(head, flat(air.step_count as nat, f));
    lemma_flat_all_zero(air.step_count as nat, f);
    lemma_group_layout(steps, 0);
    assert(all_zero(count));
    assert forall|i: int| 0 <= i < steps.len() implies (all_zero(#[trigger] f(i)) <==> steps[i].out()
        == fold_pair(steps[i].t_inv@, steps[i].beta(), steps[i].v0(), steps[i].v1())) by {
        lemma_group_layout(steps, i);
        lemma_fold_equation_exact(
            steps[i].t_inv@,
            steps[i].beta(),
            steps[i].v0(),
            steps[i].v1(),
            steps[i].out(),
        );
    }
    if all_zero(air.constraints(w)) {
        assert forall|i: int| 0 <= i < steps.len() implies (#[trigger] steps[i]).out()
            == fold_pair(steps[i].t_inv@, steps[i].beta(), steps[i].v0(), steps[i].v1()) by {
            assert(all_zero(f(i)));
        }
    } else if forall|i: int|
        0 <= i < steps.len() ==> (#[trigger] steps[i]).out() == fold_pair(
            steps[i].t_inv@,
            steps[i].beta(),
            steps[i].v0(),
            steps[i].v1(),
        ) {
        assert forall|i: int| 0 <= i < air.step_count implies all_zero(#[trigger] f(i)) by {
            assert(steps[i].out() == steps[i].out());
        }
    }
}

/// The number of leading steps that state ordinate folds.
pub open spec fn leading_ys(steps: Seq<FriFoldStepProof>, from: int) -> int
    decreases steps.len() - from,
{
    if 0 <= from < steps.len() && step_holds(FoldAxis::Y, steps[from]) {
        leading_ys(steps, from + 1)
    } else {
        from
    }
}

/// All steps state folds on one axis.
pub open spec fn all_hold(axis: FoldAxis, steps: Seq<FriFoldStepProof>) -> bool {
    forall|i: int| 0 <= i < steps.len() ==> step_holds(axis, #[trigger] steps[i])
}

/// No step states a fold on an axis.
pub open spec fn none_hold(axis: FoldAxis, steps: Seq<FriFoldStepProof>) -> bool {
    forall|i: int| 0 <= i < steps.len() ==> !step_holds(axis, #[trigger] steps[i])
}

/// Some leading ordinate folds, at least one but not all, then abscissa folds.
pub open spec fn yx_split(steps: Seq<FriFoldStepProof>) -> bool {
    let n = leading_ys(steps, 0);
    &&& 0 < n < steps.len()
    &&& forall|i: int| n <= i < steps.len() ==> step_holds(FoldAxis::X, #[trigger] steps[i])
}

/// The steps are what the kind says.
pub open spec fn kind_holds(kind: u8, steps: Seq<FriFoldStepProof>) -> bool {
    if kind == FRI_FOLD_KIND_Y {
        all_hold(FoldAxis::Y, steps)
    } else if kind == FRI_FOLD_KIND_X {
        all_hold(FoldAxis::X, steps)
    } else if kind == FRI_FOLD_KIND_YX {
        yx_split(steps)
    } else {
        false
    }
}

/// Whether the steps from `from` on all state folds on an axis.
fn all_ok_from(axis: FoldAxis, steps: &[FriFoldStepProof], from: usize) -> (r: bool)
    ensures
        r == (forall|i: int| from <= i < steps@.len() ==> step_holds(axis, #[trigger] steps@[i])),
        r && axis is X ==> forall|i: int|
            from <= i < steps@.len() ==> !step_holds(FoldAxis::Y, #[trigger] steps@[i]),
{
    let mut i: usize = from;
    while i < steps.len()
        invariant
            from <= i,
            forall|j: int| from <= j < i && j < steps@.len() ==> step_holds(axis, #[trigger] steps@[j]),
            axis is X ==> forall|j: int|
                from <= j < i && j < steps@.len() ==> !step_holds(FoldAxis::Y, #[trigger] steps@[j]),
        decreases steps.len() - i,
    {
        if !crate::fri_fold_air::fold_step_ok(axis, &steps[i]) {
            return false;
        }
        i += 1;
    }
    true
}

/// Checks ordinate folds followed by abscissa folds.
fn native_check_yx_split(steps: &[FriFoldStepProof]) -> (r: bool)
    ensures
        r == yx_split(steps@),
{
    let mut n_y: usize = 0;
    while n_y < steps.len() && fri_fold_y_native_ok(&steps[n_y])
        invariant
            n_y <= steps.len(),
            leading_ys(steps@, 0) == leading_ys(steps@, n_y as int),
        decreases steps.len() - n_y,
    {
        n_y += 1;
    }
    n_y > 0 && n_y < steps.len() && all_ok_from(FoldAxis::X, steps, n_y)
}

/// Checks that steps are what a kind says. Where all are abscissa folds, none is an ordinate
/// fold.
pub fn native_check_steps(kind: u8, steps: &[FriFoldStepProof]) -> (r: bool)
    ensures
        r == kind_holds(kind, steps@),
        r && kind == FRI_FOLD_KIND_X ==> none_hold(FoldAxis::Y, steps@),
{
    if kind == FRI_FOLD_KIND_Y {
        all_ok_from(FoldAxis::Y, steps, 0)
    } else if kind == FRI_FOLD_KIND_X {
        all_ok_from(FoldAxis::X, steps, 0)
    } else if kind == FRI_FOLD_KIND_YX {
        native_check_yx_split(steps)
    } else {
        false
    }
}

/// All steps have the given height.
pub open spec fn same_height(steps: Seq<FriFoldStepProof>, h: u32) -> bool {
    forall|i: int| 0 <= i < steps.len() ==> (#[trigger] steps[i]).log_folded_height == h
}

fn check_height(steps: &[FriFoldStepProof], h: u32) -> (r: bool)
    ensures
        r == same_height(steps@, h),
{
    let mut i: usize = 0;
    while i < steps.len()
        invariant
            i <= steps.len(),
            forall|j: int| 0 <= j < i ==> (#[trigger] steps@[j]).log_folded_height == h,
        decreases steps.len() - i,
    {
        if steps[i].log_folded_height != h {
            return false;
        }
        i += 1;
    }
    true
}

/// Why a group was not proven.
#[derive(Debug, Clone, PartialEq, Eq)]
pub enum FriFoldGroupError {
    Empty,
    TooLarge(usize),
    /// The query count is zero or too large.
    QueryCount(usize),
    Kind(u8),
    /// The steps are not what the kind says.
    SelfCheck,
    /// A step has another height than the group.
    LogHeight,
    /// The proof system reported an error.
    Backend(String),
}

pub open spec fn kind_known(kind: u8) -> bool {
    kind == FRI_FOLD_KIND_Y || kind == FRI_FOLD_KIND_X || kind == FRI_FOLD_KIND_YX
}

/// Why a group is not accepted for proving, if so.
pub open spec fn fold_group_report(
    kind: u8,
    steps: Seq<FriFoldStepProof>,
    log_folded_height: Option<u32>,
    num_queries: usize,
) -> Option<FriFoldGroupError> {
    if steps.len() == 0 {
        Some(FriFoldGroupError::Empty)
    } else if steps.len() > FRI_FOLD_GROUP_MAX_STEPS {
        Some(FriFoldGroupError::TooLarge(steps.len() as usize))
    } else if num_queries == 0 || num_queries > DEVNET_FRI_NUM_QUERIES {
        Some(FriFoldGroupError::QueryCount(num_queries))
    } else if !kind_known(kind) {
        Some(FriFoldGroupError::Kind(kind))
    } else if !kind_holds(kind, steps) {
        Some(FriFoldGroupError::SelfCheck)
    } else if log_folded_height matches Some(h) && !same_height(steps, h) {
        Some(FriFoldGroupError::LogHeight)
    } else {
        None
    }
}

/// The system of a group.
pub open spec fn group_air(steps: Seq<FriFoldStepProof>) -> FriFoldGroupAir {
    FriFoldGroupAir { step_count: steps.len() as usize, shared_beta: shares_beta(steps) }
}

/// The trace of a group: at least two flags.
pub open spec fn fold_group_trace(steps: Seq<FriFoldStepProof>) -> spec_fn(RowMajorMatrix) -> bool {
    |m: RowMajorMatrix|
        is_flag_trace(
            m,
            if steps.len() < 2 {
                2
            } else {
                steps.len() as int
            },
        )
}

/// The outcome of proving a group with `prover`. Steps proven as abscissa folds are no ordinate
/// folds.
pub open spec fn fold_group_prove_outcome<
    F: Fn(&FriFoldGroupAir, &RowMajorMatrix, &[Val]) -> Result<Vec<u8>, String>,
>(
    prover: F,
    kind: u8,
    steps: Seq<FriFoldStepProof>,
    log_folded_height: Option<u32>,
    num_queries: usize,
    r: Result<FriFoldGroupProof, FriFoldGroupError>,
) -> bool {
    match fold_group_report(kind, steps, log_folded_height, num_queries) {
        Some(e) => r == Err::<FriFoldGroupProof, FriFoldGroupError>(e),
        None => match r {
            Ok(p) => {
                &&& p.kind == kind
                &&& p.step_count == steps.len()
                &&& kind == FRI_FOLD_KIND_X ==> none_hold(FoldAxis::Y, steps)
                &&& p.log_folded_height == (match log_folded_height {
                    Some(h) => h,
                    None => MIXED_LOG_HEIGHT,
                })
                &&& prover_reply(
                    prover,
                    group_air(steps),
                    fold_group_trace(steps),
                    fold_group_publics(steps),
                    Ok(p.group_stark),
                )
            },
            Err(e) => e matches FriFoldGroupError::Backend(text) && prover_reply(
                prover,
                group_air(steps),
                fold_group_trace(steps),
                fold_group_publics(steps),
                Err(text),
            ),
        },
    }
}

/// Proves a group of steps with a prover set up for the largest number of queries.
pub fn generate_fri_fold_group_proof<
    F: Fn(&FriFoldGroupAir, &RowMajorMatrix, &[Val]) -> Result<Vec<u8>, String>,
>(kind: u8, steps: &[FriFoldStepProof], log_folded_height: Option<u32>, prover: &F) -> (r: Result<
    FriFoldGroupProof,
    FriFoldGroupError,
>)
    requires
        prover_ready::<FriFoldGroupAir, F>(*prover),
    ensures
        fold_group_prove_outcome(
            *prover,
            kind,
            steps@,
            log_folded_height,
            DEVNET_FRI_NUM_QUERIES,
            r,
        ),
{
    generate_fri_fold_group_proof_with_queries(
        kind,
        steps,
        log_folded_height,
        DEVNET_FRI_NUM_QUERIES,
        prover,
    )
}

/// Proves a group of steps with a prover set up for `num_queries` queries.
pub fn generate_fri_fold_group_proof_with_queries<
    F: Fn(&FriFoldGroupAir, &RowMajorMatrix, &[Val]) -> Result<Vec<u8>, String>,
>(
    kind: u8,
    steps: &[FriFoldStepProof],
    log_folded_height: Option<u32>,
    num_queries: usize,
    prover: &F,
) -> (r: Result<FriFoldGroupProof, FriFoldGroupError>)
    requires
        prover_ready::<FriFoldGroupAir, F>(*prover),
    ensures
        fold_group_prove_outcome(*prover, kind, steps@, log_folded_height, num_queries, r),
{
    if steps.len() == 0 {
        return Err(FriFoldGroupError::Empty);
    }
    if steps.len() > FRI_FOLD_GROUP_MAX_STEPS {
        return Err(FriFoldGroupError::TooLarge(steps.len()));
    }
    if num_queries == 0 || num_queries > DEVNET_FRI_NUM_QUERIES {
        return Err(FriFoldGroupError::QueryCount(num_queries));
    }
    if kind != FRI_FOLD_KIND_Y && kind != FRI_FOLD_KIND_X && kind != FRI_FOLD_KIND_YX {
        return Err(FriFoldGroupError::Kind(kind));
    }
    if !native_check_steps(kind, steps) {
        return Err(FriFoldGroupError::SelfCheck);
    }
    let mut height: u32 = MIXED_LOG_HEIGHT;
    if let Some(h) = log_folded_height {
        if !check_height(steps, h) {
            return Err(FriFoldGroupError::LogHeight);
        }
        height = h;
    }
    let air = FriFoldGroupAir {
        step_count: steps.len(),
        shared_beta: betas_are_shared(steps),
    };
    let pv = build_group_public_values(steps);
    let rows: usize = if steps.len() < 2 {
        2
    } else {
        steps.len()
    };
    let matrix = flag_matrix(rows);
    match ask_prover(prover, &air, &matrix, &pv, Ghost(fold_group_trace(steps@))) {
        Ok(group_stark) => Ok(
            FriFoldGroupProof {
                kind,
                step_count: steps.len() as u32,
                log_folded_height: height,
                group_stark,
            },
        ),
        Err(e) => Err(FriFoldGroupError::Backend(e)),
    }
}

/// A group proof fits its steps: count, kind, height and folds.
pub open spec fn fold_group_fits(steps: Seq<FriFoldStepProof>, p: FriFoldGroupProof) -> bool {
    &&& steps.len() as u32 == p.step_count
    &&& kind_known(p.kind)
    &&& p.log_folded_height == MIXED_LOG_HEIGHT || same_height(steps, p.log_folded_height)
    &&& kind_holds(p.kind, steps)
}

/// The verdict on a group proof: false where it does not fit its steps, else the verifier's
/// verdict on its bytes. Steps that a proof of abscissa folds fits are no ordinate folds.
pub open spec fn fold_group_verify_outcome<V: Fn(&FriFoldGroupAir, &[Val], &[u8]) -> bool>(
    verifier: V,
    steps: Seq<FriFoldStepProof>,
    p: FriFoldGroupProof,
    r: bool,
) -> bool {
    if fold_group_fits(steps, p) {
        &&& p.kind == FRI_FOLD_KIND_X ==> none_hold(FoldAxis::Y, steps)
        &&& verifier_verdict(
            verifier,
            group_air(steps),
            fold_group_publics(steps),
            p.group_stark@,
            r,
        )
    } else {
        !r
    }
}

/// Checks a group proof against its steps.
pub fn verify_fri_fold_group_proof<V: Fn(&FriFoldGroupAir, &[Val], &[u8]) -> bool>(
    steps: &[FriFoldStepProof],
    proof: &FriFoldGroupProof,
    verifier: &V,
) -> (r: bool)
    requires
        verifier_ready::<FriFoldGroupAir, V>(*verifier),
    ensures
        fold_group_verify_outcome(*verifier, steps@, *proof, r),
{
    if steps.len() as u32 != proof.step_count {
        return false;
    }
    if proof.kind != FRI_FOLD_KIND_Y && proof.kind != FRI_FOLD_KIND_X && proof.kind
        != FRI_FOLD_KIND_YX {
        return false;
    }
    if proof.log_folded_height != MIXED_LOG_HEIGHT && !check_height(
        steps,
        proof.log_folded_height,
    ) {
        return false;
    }
    if !native_check_steps(proof.kind, steps) {
        return false;
    }
    let air = FriFoldGroupAir {
        step_count: steps.len(),
        shared_beta: betas_are_shared(steps),
    };
    let pv = build_group_public_values(steps);
    ask_verifier(verifier, &air, &pv, &proof.group_stark)
}

/// Two steps that agree in everything.
pub open spec fn same_step(a: FriFoldStepProof, b: FriFoldStepProof) -> bool {
    &&& a.index == b.index
    &&& a.log_folded_height == b.log_folded_height
    &&& a.t_inv == b.t_inv
    &&& a.beta_limbs == b.beta_limbs
    &&& a.v0_limbs == b.v0_limbs
    &&& a.v1_limbs == b.v1_limbs
    &&& a.out_limbs == b.out_limbs
    &&& a.fold_stark@ == b.fold_stark@
}

/// Two lists of steps that agree in everything.
pub open spec fn same_steps(a: Seq<FriFoldStepProof>, b: Seq<FriFoldStepProof>) -> bool {
    a.len() == b.len() && forall|i: int| 0 <= i < a.len() ==> same_step(#[trigger] a[i], b[i])
}

/// A copy of a step.
pub fn copy_step(s: &FriFoldStepProof) -> (r: FriFoldStepProof)
    ensures
        same_step(r, *s),
{
    FriFoldStepProof {
        index: s.index,
        log_folded_height: s.log_folded_height,
        t_inv: s.t_inv,
        beta_limbs: s.beta_limbs,
        v0_limbs: s.v0_limbs,
        v1_limbs: s.v1_limbs,
        out_limbs: s.out_limbs,
        fold_stark: copy_bytes(s.fold_stark.as_slice()),
    }
}

/// A copy of bytes.
pub fn copy_bytes(s: &[u8]) -> (r: Vec<u8>)
    ensures
        r@ == s@,
{
    let mut r: Vec<u8> = Vec::new();
    let mut i: usize = 0;
    while i < s.len()
        invariant
            i <= s.len(),
            r@ == s@.take(i as int),
        decreases s.len() - i,
    {
        r.push(s[i]);
        i += 1;
        proof {
            assert(r@ =~= s@.take(i as int));
        }
    }
    proof {
        assert(s@.take(s@.len() as int) =~= s@);
    }
    r
}

/// Appends copies of steps.
pub fn append_steps(out: &mut Vec<FriFoldStepProof>, steps: &[FriFoldStepProof])
    ensures
        final(out)@.len() == old(out)@.len() + steps@.len(),
        forall|i: int|
            0 <= i < old(out)@.len() ==> #[trigger] final(out)@[i] == old(out)@[i],
        forall|i: int|
            0 <= i < steps@.len() ==> same_step(
                #[trigger] final(out)@[old(out)@.len() + i],
                steps@[i],
            ),
{
    let ghost n = out@.len();
    let ghost before = out@;
    let mut i: usize = 0;
    while i < steps.len()
        invariant
            i <= steps.len(),
            n == before.len(),
            out@.len() == n + i,
            forall|j: int| 0 <= j < n ==> #[trigger] out@[j] == before[j],
            forall|j: int| 0 <= j < i ==> same_step(#[trigger] out@[n + j], steps@[j]),
        decreases steps.len() - i,
    {
        let ghost prev = out@;
        out.push(copy_step(&steps[i]));
        proof {
            assert forall|j: int| 0 <= j < i + 1 implies same_step(
                #[trigger] out@[n + j],
                steps@[j],
            ) by {
                if j < i {
                    assert(out@[n + j] == prev[n + j]);
                }
            }
        }
        i += 1;
    }
}

/// A verdict on a group is one on any steps that say the same.
pub proof fn lemma_same_steps_verdict<V: Fn(&FriFoldGroupAir, &[Val], &[u8]) -> bool>(
    verifier: V,
    a: Seq<FriFoldStepProof>,
    b: Seq<FriFoldStepProof>,
    p: FriFoldGroupProof,
    r: bool,
)
    requires
        same_steps(a, b),
        fold_group_verify_outcome(verifier, a, p, r),
    ensures
        fold_group_verify_outcome(verifier, b, p, r),
{
    lemma_same_steps_judged(a, b, p);
    if none_hold(FoldAxis::Y, a) {
        assert forall|i: int| 0 <= i < b.len() implies !step_holds(
            FoldAxis::Y,
            #[trigger] b[i],
        ) by {
            assert(same_step(a[i], b[i]));
            assert(!step_holds(FoldAxis::Y, a[i]));
        }
    }
}

/// A group is judged by what its steps say.
proof fn lemma_same_steps_judged(
    a: Seq<FriFoldStepProof>,
    b: Seq<FriFoldStepProof>,
    p: FriFoldGroupProof,
)
    requires
        same_steps(a, b),
    ensures
        fold_group_fits(a, p) == fold_group_fits(b, p),
        group_air(a) == group_air(b),
        fold_group_publics(a) == fold_group_publics(b),
{
    assert forall|i: int| 0 <= i < a.len() implies (#[trigger] a[i]).beta() == b[i].beta() && a[i].v0()
        == b[i].v0() && a[i].v1() == b[i].v1() && a[i].out() == b[i].out() && a[i].t_inv == b[i].t_inv
        && a[i].log_folded_height == b[i].log_folded_height && step_holds(FoldAxis::Y, a[i])
        == step_holds(FoldAxis::Y, b[i]) && step_holds(FoldAxis::X, a[i]) == step_holds(
        FoldAxis::X,
        b[i],
    ) by {
        assert(same_step(a[i], b[i]));
    }
    lemma_leading_ys_same(a, b, 0);
    assert(shares_beta(a) == shares_beta(b)) by {
        if shares_beta(a) {
            assert forall|i: int| 0 <= i < b.len() implies (#[trigger] b[i]).beta() == b[0].beta() by {
                assert(a[i].beta() == a[0].beta());
            }
        }
        if shares_beta(b) {
            assert forall|i: int| 0 <= i < a.len() implies (#[trigger] a[i]).beta() == a[0].beta() by {
                assert(b[i].beta() == b[0].beta());
            }
        }
    }
    let f = |i: int| step_publics(a[i], shares_beta(a));
    let g = |i: int| step_publics(b[i], shares_beta(b));
    assert forall|i: int| 0 <= i < a.len() implies #[trigger] f(i) == g(i) by {
        assert(same_step(a[i], b[i]));
    }
    lemma_flat_same(a.len(), f, g);
    assert(header_publics(a) == header_publics(b)) by {
        if a.len() > 0 {
            assert(a[0].beta() == b[0].beta());
        }
    }
    lemma_fits_one_way(a, b, p);
    assert(same_steps(b, a)) by {
        assert forall|i: int| 0 <= i < b.len() implies same_step(#[trigger] b[i], a[i]) by {
            assert(same_step(a[i], b[i]));
        }
    }
    lemma_fits_one_way(b, a, p);
}

proof fn lemma_leading_ys_same(a: Seq<FriFoldStepProof>, b: Seq<FriFoldStepProof>, from: int)
    requires
        same_steps(a, b),
        0 <= from,
    ensures
        leading_ys(a, from) == leading_ys(b, from),
    decreases a.len() - from,
{
    if from < a.len() {
        assert(same_step(a[from], b[from]));
        lemma_leading_ys_same(a, b, from + 1);
    }
}

proof fn lemma_fits_one_way(
    a: Seq<FriFoldStepProof>,
    b: Seq<FriFoldStepProof>,
    p: FriFoldGroupProof,
)
    requires
        same_steps(a, b),
    ensures
        fold_group_fits(a, p) ==> fold_group_fits(b, p),
{
    lemma_leading_ys_same(a, b, 0);
    assert forall|i: int| 0 <= i < b.len() implies (#[trigger] b[i]).log_folded_height
        == a[i].log_folded_height && step_holds(FoldAxis::Y, a[i]) == step_holds(FoldAxis::Y, b[i])
        && step_holds(FoldAxis::X, a[i]) == step_holds(FoldAxis::X, b[i]) by {
        assert(same_step(a[i], b[i]));
    }
}

/// The leading ordinate folds end at the first step that is none.
proof fn lemma_leading_ys(steps: Seq<FriFoldStepProof>, from: int)
    requires
        0 <= from <= steps.len(),
    ensures
        ({
            let n = leading_ys(steps, from);
            &&& from <= n <= steps.len()
            &&& n < steps.len() ==> !step_holds(FoldAxis::Y, steps[n])
            &&& from < n ==> step_holds(FoldAxis::Y, steps[from])
        }),
    decreases steps.len() - from,
{
    if from < steps.len() && step_holds(FoldAxis::Y, steps[from]) {
        lemma_leading_ys(steps, from + 1);
    }
}

/// A group as made fits its steps: it records how many there are and their height, or that
/// heights are mixed, and its verdict is the verifier's on its bytes.
pub proof fn lemma_made_group_fits<
    F: Fn(&FriFoldGroupAir, &RowMajorMatrix, &[Val]) -> Result<Vec<u8>, String>,
    V: Fn(&FriFoldGroupAir, &[Val], &[u8]) -> bool,
>(
    prover: F,
    verifier: V,
    kind: u8,
    steps: Seq<FriFoldStepProof>,
    log_folded_height: Option<u32>,
    num_queries: usize,
    p: FriFoldGroupProof,
    r: bool,
)
    requires
        fold_group_prove_outcome(
            prover,
            kind,
            steps,
            log_folded_height,
            num_queries,
            Ok::<FriFoldGroupProof, FriFoldGroupError>(p),
        ),
        fold_group_verify_outcome(verifier, steps, p, r),
    ensures
        fold_group_fits(steps, p),
        p.kind == kind,
        p.step_count == steps.len(),
        p.log_folded_height == (match log_folded_height {
            Some(h) => h,
            None => MIXED_LOG_HEIGHT,
        }),
        verifier_verdict(
            verifier,
            group_air(steps),
            fold_group_publics(steps),
            p.group_stark@,
            r,
        ),
{
}

/// A group as made is refused, whatever its verifier says, once its step count is another, its
/// kind is unknown or another, or it claims a height that its steps do not have.
pub proof fn lemma_altered_group_refused<
    F: Fn(&FriFoldGroupAir, &RowMajorMatrix, &[Val]) -> Result<Vec<u8>, String>,
    V: Fn(&FriFoldGroupAir, &[Val], &[u8]) -> bool,
>(
    prover: F,
    verifier: V,
    kind: u8,
    steps: Seq<FriFoldStepProof>,
    log_folded_height: Option<u32>,
    num_queries: usize,
    p: FriFoldGroupProof,
    q: FriFoldGroupProof,
    r: bool,
)
    requires
        fold_group_prove_outcome(
            prover,
            kind,
            steps,
            log_folded_height,
            num_queries,
            Ok::<FriFoldGroupProof, FriFoldGroupError>(p),
        ),
        q.step_count != p.step_count || q.kind != p.kind || (q.log_folded_height
            != MIXED_LOG_HEIGHT && !same_height(steps, q.log_folded_height)),
        fold_group_verify_outcome(verifier, steps, q, r),
    ensures
        !r,
{
    lemma_leading_ys(steps, 0);
    let n = leading_ys(steps, 0);
    assert(kind_holds(kind, steps));
    if fold_group_fits(steps, q) {
        assert(q.kind != kind);
        if kind == FRI_FOLD_KIND_X || q.kind == FRI_FOLD_KIND_X {
            assert(none_hold(FoldAxis::Y, steps));
            assert(!step_holds(FoldAxis::Y, steps[0]));
        } else {
            // ordinate folds alone against ordinate folds and more
            assert(step_holds(FoldAxis::Y, steps[n]));
        }
    }
}

} // verus!
