//! The reduction of a leaf trace row as a constraint system over public values.
//!
//! Rows of up to [`LEAF_DEEP_RO_MAX_WIDTH`] entries are padded with zeros; a flag per entry says
//! whether it is used.
//!
//! Publics: `sx`, `sy`, both evaluation points (four elements), `alpha`, the width, the flags,
//! the padded row, then elements: the padded values at both points, the running powers that give
//! `alpha^width`, its square, and per point the reduction (`re`, `im`, `numer`, `denom`,
//! `linear`, `out_pre`), the powers of `alpha` and the running combination; then `combined`,
//! `lambda`, the base value `v_n` and `out`.
use vstd::prelude::*;

use crate::circle::v_n;
use crate::constraint::{evals, fbit, ConstraintSink, Expr, Window, WindowVals};
use crate::deep_ro_air::{constrain_vp_numer_denom, deep_trace, vanishing_constraints};
use crate::deep_ro_native::{
    deep_linear, deep_quotient, deep_ro_leaf_trace_witness, is_leaf_witness, lambda_corrected,
    leaf_report, projective_point, shorter, vanishing_norm, vanishing_parts, DeepPartialWitness,
    DeepRoError, DeepRoLeafTraceWitness, LEAF_DEEP_RO_MAX_WIDTH,
};
use crate::devnet::DEVNET_FRI_NUM_QUERIES;
use crate::ef_limbs::{
    ef_add_limbs, ef_assert_eq, ef_base_minus, ef_mul_limbs, ef_scale_by_base, ef_sub_limbs,
    limb_differences, limbs, limbs_at, read_limbs,
};
use crate::ext::{
    eadd, ebase, emul, eone, epow, escale, esquare, esub, evals_of, ezero, Challenge, Ext,
};
use crate::field::{fadd, fmul, fsub, vals, Val, P};
use crate::flag_air::{
    constrain_flag, exts, flag_constraints, flag_matrix, limb_ext, push_challenges,
};
use crate::fri_fold_native::{challenge_to_limbs, limbs_to_challenge};
use crate::matrix::{push_val, RowMajorMatrix};
use crate::path_gadgets::flat;
use crate::proof_system::{
    ask_prover, ask_verifier, prover_ready, prover_reply, verifier_ready, verifier_verdict,
};

verus! {

/// Number of public values.
pub const DEEP_RO_LEAF_NUM_PUBLIC: usize = 1634;

/// Trace width: one flag column.
pub const DEEP_RO_LEAF_TRACE_WIDTH: usize = 1;

const OFF_WIDTH: usize = 17;

const OFF_ACTIVE: usize = 18;

const OFF_PX: usize = 86;

/// Where the elements start.
const OFF_ELEMENTS: usize = 154;

const OFF_PZ_LOCAL: usize = 154;

const OFF_PZ_NEXT: usize = 358;

const OFF_APOW: usize = 562;

const OFF_AW2: usize = 769;

const OFF_D0: usize = 772;

const OFF_POW0: usize = 790;

const OFF_ACC0: usize = 994;

const OFF_D1: usize = 1198;

const OFF_POW1: usize = 1216;

const OFF_ACC1: usize = 1420;

const OFF_COMBINED: usize = 1624;

/// The constraint system of a leaf trace reduction.
#[derive(Copy, Clone, Debug)]
pub struct DeepRoLeafTraceAir;

/// Element `k` of the publics.
pub open spec fn leaf_element(pv: Seq<int>, k: int) -> Ext {
    limbs_at(pv, 154 + 3 * k)
}

/// Flag `i` is a bit, an unused entry is zero, and flags do not rise.
pub open spec fn active_block(pv: Seq<int>, i: int) -> Seq<int> {
    let a = pv[18 + i];
    let inactive = fsub(1, a);
    let l = leaf_element(pv, i);
    let n = leaf_element(pv, 68 + i);
    seq![
        fbit(a),
        fmul(inactive, pv[86 + i]),
        fmul(inactive, l.c0),
        fmul(inactive, n.c0),
        fmul(inactive, l.c1),
        fmul(inactive, n.c1),
        fmul(inactive, l.c2),
        fmul(inactive, n.c2),
    ] + (if i + 1 < 68 {
        seq![fmul(pv[18 + i + 1], fsub(1, a))]
    } else {
        Seq::<int>::empty()
    })
}

/// The sum of the first `n` flags.
pub open spec fn active_sum(pv: Seq<int>, n: nat) -> int
    decreases n,
{
    if n == 0 {
        0
    } else {
        fadd(active_sum(pv, (n - 1) as nat), pv[18 + n - 1])
    }
}

/// `1 + a (alpha - 1)`.
pub open spec fn power_factor(a: int, alpha: Ext) -> Ext {
    Ext {
        c0: fadd(1, fmul(a, fsub(alpha.c0, 1))),
        c1: fmul(a, alpha.c1),
        c2: fmul(a, alpha.c2),
    }
}

/// Running power `i + 1` is running power `i`, times `alpha` where flag `i` is set.
pub open spec fn power_block(pv: Seq<int>, i: int) -> Seq<int> {
    limb_differences(
        emul(leaf_element(pv, 136 + i), power_factor(pv[18 + i], limbs_at(pv, 14))),
        leaf_element(pv, 136 + i + 1),
    )
}

/// Entry `i` of the row less its value at an evaluation point.
pub open spec fn leaf_term(pv: Seq<int>, pz: int, i: int) -> Ext {
    esub(ebase(pv[86 + i]), leaf_element(pv, pz + i))
}

/// Step `i` of a running combination: the next power and the next sum.
pub open spec fn horner_block(pv: Seq<int>, alpha: Ext, pz: int, pow: int, acc: int, i: int) -> Seq<
    int,
> {
    limb_differences(
        emul(leaf_element(pv, pow + i), alpha),
        leaf_element(pv, pow + i + 1),
    ) + limb_differences(
        eadd(
            leaf_element(pv, acc + i),
            emul(leaf_element(pv, pow + i + 1), leaf_term(pv, pz, i + 1)),
        ),
        leaf_element(pv, acc + i + 1),
    )
}

/// A running combination from its first term to `linear`.
pub open spec fn horner_constraints(
    pv: Seq<int>,
    alpha: Ext,
    pz: int,
    pow: int,
    acc: int,
    linear: Ext,
) -> Seq<int> {
    limb_differences(leaf_element(pv, pow), eone()) + limb_differences(
        leaf_element(pv, acc),
        leaf_term(pv, pz, 0),
    ) + flat(67, |i: int| horner_block(pv, alpha, pz, pow, acc, i)) + limb_differences(
        leaf_element(pv, acc + 67),
        linear,
    )
}

/// The vanishing constraints of the reduction whose elements start at `d`.
pub open spec fn leaf_vanishing(pv: Seq<int>, at: (Ext, Ext), d: int) -> Seq<int> {
    vanishing_constraints(
        pv[0],
        pv[1],
        at,
        leaf_element(pv, 204),
        leaf_element(pv, d),
        leaf_element(pv, d + 1),
        leaf_element(pv, d + 2),
        leaf_element(pv, d + 3),
    )
}

/// `out_pre denom = numer linear` of the reduction whose elements start at `d`.
pub open spec fn leaf_quotient(pv: Seq<int>, d: int) -> Seq<int> {
    limb_differences(
        emul(leaf_element(pv, d + 5), leaf_element(pv, d + 3)),
        emul(leaf_element(pv, d + 2), leaf_element(pv, d + 4)),
    )
}

/// The part of the constraints on flags and powers.
pub open spec fn leaf_flag_part(pv: Seq<int>) -> Seq<int> {
    flat(68, |i: int| active_block(pv, i)) + seq![fsub(active_sum(pv, 68), pv[17])] + seq![
        fsub(pv[18], 1),
    ] + limb_differences(leaf_element(pv, 136), eone()) + flat(68, |i: int| power_block(pv, i))
        + limb_differences(
        emul(leaf_element(pv, 204), leaf_element(pv, 204)),
        leaf_element(pv, 205),
    )
}

/// The part of the constraints on the reductions and their combination.
pub open spec fn leaf_reduction_part(pv: Seq<int>) -> Seq<int> {
    let alpha = limbs_at(pv, 14);
    leaf_vanishing(pv, (limbs_at(pv, 2), limbs_at(pv, 5)), 206) + leaf_vanishing(
        pv,
        (limbs_at(pv, 8), limbs_at(pv, 11)),
        348,
    ) + horner_constraints(pv, alpha, 0, 212, 280, leaf_element(pv, 210)) + horner_constraints(
        pv,
        alpha,
        68,
        354,
        422,
        leaf_element(pv, 352),
    ) + leaf_quotient(pv, 206) + leaf_quotient(pv, 348) + limb_differences(
        eadd(
            leaf_element(pv, 211),
            emul(leaf_element(pv, 205), leaf_element(pv, 353)),
        ),
        leaf_element(pv, 490),
    ) + limb_differences(
        esub(leaf_element(pv, 490), escale(leaf_element(pv, 491), pv[1630])),
        limbs_at(pv, 1631),
    )
}

/// Emits the constraints on flags.
fn constrain_active<S: ConstraintSink>(sink: &mut S, pv: &[S::E])
    requires
        pv@.len() >= DEEP_RO_LEAF_NUM_PUBLIC,
    ensures
        final(sink).emitted() == old(sink).emitted() + flat(
            68,
            |i: int| active_block(evals(pv@), i),
        ) + seq![fsub(active_sum(evals(pv@), 68), evals(pv@)[17])],
{
    let ghost e0 = sink.emitted();
    let ghost v = evals(pv@);
    let one = <S::E as Expr>::lit(1);
    let mut sum = <S::E as Expr>::lit(0);
    let ghost f = |i: int| active_block(v, i);
    proof {
        assert(e0 + flat(0, f) =~= e0);
    }
    let mut i: usize = 0;
    while i < LEAF_DEEP_RO_MAX_WIDTH
        invariant
            i <= 68,
            pv@.len() >= DEEP_RO_LEAF_NUM_PUBLIC,
            v == evals(pv@),
            one.val() == 1,
            f == (|i: int| active_block(v, i)),
            sum.val() == active_sum(v, i as nat),
            sink.emitted() == e0 + flat(i as nat, f),
        decreases 68 - i,
    {
        let ghost e1 = sink.emitted();
        let a = pv[OFF_ACTIVE + i].dup();
        sink.assert_zero(a.times(&a.minus(&one)));
        sum = sum.plus(&a);
        let inactive = one.minus(&a);
        sink.assert_zero(inactive.times(&pv[OFF_PX + i]));
        sink.assert_zero(inactive.times(&pv[OFF_PZ_LOCAL + i * 3]));
        sink.assert_zero(inactive.times(&pv[OFF_PZ_NEXT + i * 3]));
        sink.assert_zero(inactive.times(&pv[OFF_PZ_LOCAL + i * 3 + 1]));
        sink.assert_zero(inactive.times(&pv[OFF_PZ_NEXT + i * 3 + 1]));
        sink.assert_zero(inactive.times(&pv[OFF_PZ_LOCAL + i * 3 + 2]));
        sink.assert_zero(inactive.times(&pv[OFF_PZ_NEXT + i * 3 + 2]));
        if i + 1 < LEAF_DEEP_RO_MAX_WIDTH {
            let a_next = pv[OFF_ACTIVE + i + 1].dup();
            sink.assert_zero(a_next.times(&inactive));
        }
        proof {
            let k: int = i as int;
            assert(v[18 + k] == pv@[18 + k].val());
            assert(v[86 + k] == pv@[86 + k].val());
            assert(v[154 + 3 * k] == pv@[154 + k * 3].val());
            assert(sink.emitted() =~= e1 + active_block(v, k));
            assert(f(k) == active_block(v, k));
            assert(flat((i + 1) as nat, f) =~= flat(i as nat, f) + f(k));
            assert(sink.emitted() =~= e0 + flat((i + 1) as nat, f));
        }
        i += 1;
    }
    sink.assert_zero(sum.minus(&pv[OFF_WIDTH]));
    proof {
        assert(sink.emitted() =~= e0 + flat(68, f) + seq![fsub(active_sum(v, 68), v[17])]);
    }
}

/// Emits the constraints on the running powers.
fn constrain_powers<S: ConstraintSink>(sink: &mut S, pv: &[S::E], alpha: &[S::E; 3])
    requires
        pv@.len() >= DEEP_RO_LEAF_NUM_PUBLIC,
        limbs(alpha@) == limbs_at(evals(pv@), 14),
    ensures
        final(sink).emitted() == old(sink).emitted() + limb_differences(
            leaf_element(evals(pv@), 136),
            eone(),
        ) + flat(68, |i: int| power_block(evals(pv@), i)),
{
    let ghost v = evals(pv@);
    let one = <S::E as Expr>::lit(1);
    let unit = [
        <S::E as Expr>::lit(1),
        <S::E as Expr>::lit(0),
        <S::E as Expr>::lit(0),
    ];
    proof {
        assert(limbs(unit@) == eone());
    }
    let apow0 = read_limbs(pv, OFF_APOW);
    ef_assert_eq(sink, &apow0, &unit);
    let ghost e0 = sink.emitted();
    let ghost f = |i: int| power_block(v, i);
    proof {
        assert(leaf_element(v, 136) == limbs_at(v, 562));
        assert(e0 + flat(0, f) =~= e0);
    }
    let mut i: usize = 0;
    while i < LEAF_DEEP_RO_MAX_WIDTH
        invariant
            i <= 68,
            pv@.len() >= DEEP_RO_LEAF_NUM_PUBLIC,
            v == evals(pv@),
            limbs(alpha@) == limbs_at(v, 14),
            one.val() == 1,
            f == (|i: int| power_block(v, i)),
            sink.emitted() == e0 + flat(i as nat, f),
        decreases 68 - i,
    {
        let a = pv[OFF_ACTIVE + i].dup();
        let apow_i = read_limbs(pv, OFF_APOW + i * 3);
        let apow_n = read_limbs(pv, OFF_APOW + (i + 1) * 3);
        let factor = [
            one.plus(&a.times(&alpha[0].minus(&one))),
            a.times(&alpha[1]),
            a.times(&alpha[2]),
        ];
        let exp = ef_mul_limbs(&apow_i, &factor);
        ef_assert_eq(sink, &exp, &apow_n);
        proof {
            let k: int = i as int;
            assert(v[18 + k] == pv@[18 + k].val());
            assert(154 + 3 * (136 + k) == 562 + k * 3);
            assert(154 + 3 * (136 + k + 1) == 562 + (k + 1) * 3);
            assert(limbs(factor@) == power_factor(v[18 + k], limbs_at(v, 14)));
            assert(f(k) == power_block(v, k));
            assert(flat((i + 1) as nat, f) =~= flat(i as nat, f) + f(k));
            assert(sink.emitted() =~= e0 + flat((i + 1) as nat, f));
        }
        i += 1;
    }
}

/// Emits the constraints of a running combination.
fn constrain_horner<S: ConstraintSink>(
    sink: &mut S,
    alpha: &[S::E; 3],
    pz_off: usize,
    pow_off: usize,
    acc_off: usize,
    linear: &[S::E; 3],
    pv: &[S::E],
    Ghost(pz): Ghost<int>,
    Ghost(pow): Ghost<int>,
    Ghost(acc): Ghost<int>,
)
    requires
        pv@.len() >= DEEP_RO_LEAF_NUM_PUBLIC,
        pz_off == 154 + 3 * pz,
        pow_off == 154 + 3 * pow,
        acc_off == 154 + 3 * acc,
        pz_off + 204 <= 1634,
        pow_off + 204 <= 1634,
        acc_off + 204 <= 1634,
    ensures
        final(sink).emitted() == old(sink).emitted() + horner_constraints(
            evals(pv@),
            limbs(alpha@),
            pz,
            pow,
            acc,
            limbs(linear@),
        ),
{
    let ghost start = sink.emitted();
    let ghost v = evals(pv@);
    let ghost al = limbs(alpha@);
    let unit = [
        <S::E as Expr>::lit(1),
        <S::E as Expr>::lit(0),
        <S::E as Expr>::lit(0),
    ];
    proof {
        assert(limbs(unit@) == eone());
    }
    let pow0 = read_limbs(pv, pow_off);
    ef_assert_eq(sink, &pow0, &unit);
    let pz0 = read_limbs(pv, pz_off);
    let c0 = ef_base_minus(&pv[OFF_PX], &pz0);
    let acc0 = read_limbs(pv, acc_off);
    ef_assert_eq(sink, &acc0, &c0);
    let ghost e0 = sink.emitted();
    let ghost f = |i: int| horner_block(v, al, pz, pow, acc, i);
    proof {
        assert(v[86] == pv@[86].val());
        assert(e0 + flat(0, f) =~= e0);
    }
    let mut i: usize = 0;
    while i < LEAF_DEEP_RO_MAX_WIDTH - 1
        invariant
            i <= 67,
            pv@.len() >= DEEP_RO_LEAF_NUM_PUBLIC,
            v == evals(pv@),
            al == limbs(alpha@),
            pz_off == 154 + 3 * pz,
            pow_off == 154 + 3 * pow,
            acc_off == 154 + 3 * acc,
            pz_off + 204 <= 1634,
            pow_off + 204 <= 1634,
            acc_off + 204 <= 1634,
            f == (|i: int| horner_block(v, al, pz, pow, acc, i)),
            sink.emitted() == e0 + flat(i as nat, f),
        decreases 67 - i,
    {
        let ghost e1 = sink.emitted();
        let pow_i = read_limbs(pv, pow_off + i * 3);
        let pow_n = read_limbs(pv, pow_off + (i + 1) * 3);
        let pow_exp = ef_mul_limbs(&pow_i, alpha);
        ef_assert_eq(sink, &pow_exp, &pow_n);
        let pzn = read_limbs(pv, pz_off + (i + 1) * 3);
        let c = ef_base_minus(&pv[OFF_PX + i + 1], &pzn);
        let term = ef_mul_limbs(&pow_n, &c);
        let acc_i = read_limbs(pv, acc_off + i * 3);
        let acc_n = read_limbs(pv, acc_off + (i + 1) * 3);
        let acc_exp = ef_add_limbs(&acc_i, &term);
        ef_assert_eq(sink, &acc_exp, &acc_n);
        proof {
            let k: int = i as int;
            assert(v[86 + k + 1] == pv@[86 + k + 1].val());
            assert(154 + 3 * (pow + k) == pow_off + k * 3);
            assert(154 + 3 * (pow + k + 1) == pow_off + (k + 1) * 3);
            assert(154 + 3 * (acc + k) == acc_off + k * 3);
            assert(154 + 3 * (acc + k + 1) == acc_off + (k + 1) * 3);
            assert(154 + 3 * (pz + (k + 1)) == pz_off + (k + 1) * 3);
            assert(f(k) == horner_block(v, al, pz, pow, acc, k));
            assert(sink.emitted() =~= e1 + horner_block(v, al, pz, pow, acc, k));
            assert(flat((i + 1) as nat, f) =~= flat(i as nat, f) + f(k));
            assert(sink.emitted() =~= e0 + flat((i + 1) as nat, f));
        }
        i += 1;
    }
    let acc_last = read_limbs(pv, acc_off + 201);
    ef_assert_eq(sink, &acc_last, linear);
    proof {
        assert(154 + 3 * (acc + 67) == acc_off + 201);
        assert(sink.emitted() =~= start + horner_constraints(
            v,
            al,
            pz,
            pow,
            acc,
            limbs(linear@),
        ));
    }
}

impl DeepRoLeafTraceAir {
    pub fn width(&self) -> (r: usize)
        ensures
            r == DEEP_RO_LEAF_TRACE_WIDTH,
    {
        DEEP_RO_LEAF_TRACE_WIDTH
    }

    pub fn max_constraint_degree(&self) -> (r: Option<usize>)
        ensures
            r == Some(2usize),
    {
        Some(2)
    }

    pub fn num_public_values(&self) -> (r: usize)
        ensures
            r == DEEP_RO_LEAF_NUM_PUBLIC,
    {
        DEEP_RO_LEAF_NUM_PUBLIC
    }

    /// The constraints on the public values.
    pub open spec fn public_constraints(&self, pv: Seq<int>) -> Seq<int> {
        leaf_flag_part(pv) + leaf_reduction_part(pv)
    }

    /// The flag constraints and those on the public values.
    pub open spec fn constraints(&self, w: WindowVals) -> Seq<int> {
        flag_constraints(w) + self.public_constraints(w.pv)
    }

    /// Emits the constraints.
    pub fn eval<S: ConstraintSink>(&self, sink: &mut S, w: &Window<S::E>)
        requires
            w.curr@.len() >= DEEP_RO_LEAF_TRACE_WIDTH,
            w.next@.len() >= DEEP_RO_LEAF_TRACE_WIDTH,
            w.pv@.len() >= DEEP_RO_LEAF_NUM_PUBLIC,
        ensures
            final(sink).emitted() == old(sink).emitted() + self.constraints(w@),
    {
        let ghost e0 = sink.emitted();
        constrain_flag(sink, w);
        let pv: &[S::E] = w.pv.as_slice();
        let ghost v = w@.pv;
        proof {
            assert(evals(pv@) == v);
        }
        let one = <S::E as Expr>::lit(1);
        let alpha = read_limbs(pv, 14);
        let ghost e1 = sink.emitted();
        constrain_active(sink, pv);
        sink.assert_zero(pv[OFF_ACTIVE].minus(&one));
        constrain_powers(sink, pv, &alpha);
        let alpha_w = read_limbs(pv, OFF_APOW + 204);
        let alpha_w2 = read_limbs(pv, OFF_AW2);
        let aw2_exp = ef_mul_limbs(&alpha_w, &alpha_w);
        ef_assert_eq(sink, &aw2_exp, &alpha_w2);
        let ghost e2 = sink.emitted();
        proof {
            assert(leaf_element(v, 204) == limbs_at(v, 766));
            assert(leaf_element(v, 205) == limbs_at(v, 769));
            assert(e2 =~= e1 + leaf_flag_part(v));
        }
        constrain_reductions(sink, pv, &alpha, &alpha_w, &alpha_w2);
        proof {
            assert(sink.emitted() =~= e0 + self.constraints(w@));
        }
    }
}

/// Emits the constraints on the reductions and their combination.
fn constrain_reductions<S: ConstraintSink>(
    sink: &mut S,
    pv: &[S::E],
    alpha: &[S::E; 3],
    alpha_w: &[S::E; 3],
    alpha_w2: &[S::E; 3],
)
    requires
        pv@.len() >= DEEP_RO_LEAF_NUM_PUBLIC,
        limbs(alpha@) == limbs_at(evals(pv@), 14),
        limbs(alpha_w@) == leaf_element(evals(pv@), 204),
        limbs(alpha_w2@) == leaf_element(evals(pv@), 205),
    ensures
        final(sink).emitted() == old(sink).emitted() + leaf_reduction_part(evals(pv@)),
{
    let ghost e0 = sink.emitted();
    let ghost v = evals(pv@);
    let at_x = read_limbs(pv, 2);
    let at_y = read_limbs(pv, 5);
    let atn_x = read_limbs(pv, 8);
    let atn_y = read_limbs(pv, 11);
    let re0 = read_limbs(pv, OFF_D0);
    let im0 = read_limbs(pv, OFF_D0 + 3);
    let numer0 = read_limbs(pv, OFF_D0 + 6);
    let denom0 = read_limbs(pv, OFF_D0 + 9);
    let linear0 = read_limbs(pv, OFF_D0 + 12);
    let out_pre0 = read_limbs(pv, OFF_D0 + 15);
    let re1 = read_limbs(pv, OFF_D1);
    let im1 = read_limbs(pv, OFF_D1 + 3);
    let numer1 = read_limbs(pv, OFF_D1 + 6);
    let denom1 = read_limbs(pv, OFF_D1 + 9);
    let linear1 = read_limbs(pv, OFF_D1 + 12);
    let out_pre1 = read_limbs(pv, OFF_D1 + 15);
    let combined = read_limbs(pv, OFF_COMBINED);
    let lambda = read_limbs(pv, OFF_COMBINED + 3);
    let out = read_limbs(pv, OFF_COMBINED + 7);
    constrain_vp_numer_denom(
        sink,
        &pv[0],
        &pv[1],
        &at_x,
        &at_y,
        alpha_w,
        &re0,
        &im0,
        &numer0,
        &denom0,
    );
    constrain_vp_numer_denom(
        sink,
        &pv[0],
        &pv[1],
        &atn_x,
        &atn_y,
        alpha_w,
        &re1,
        &im1,
        &numer1,
        &denom1,
    );
    constrain_horner(
        sink,
        alpha,
        OFF_PZ_LOCAL,
        OFF_POW0,
        OFF_ACC0,
        &linear0,
        pv,
        Ghost(0),
        Ghost(212),
        Ghost(280),
    );
    constrain_horner(
        sink,
        alpha,
        OFF_PZ_NEXT,
        OFF_POW1,
        OFF_ACC1,
        &linear1,
        pv,
        Ghost(68),
        Ghost(354),
        Ghost(422),
    );
    let lhs0 = ef_mul_limbs(&out_pre0, &denom0);
    let rhs0 = ef_mul_limbs(&numer0, &linear0);
    ef_assert_eq(sink, &lhs0, &rhs0);
    let lhs1 = ef_mul_limbs(&out_pre1, &denom1);
    let rhs1 = ef_mul_limbs(&numer1, &linear1);
    ef_assert_eq(sink, &lhs1, &rhs1);
    let aw2_d1 = ef_mul_limbs(alpha_w2, &out_pre1);
    let combined_exp = ef_add_limbs(&out_pre0, &aw2_d1);
    ef_assert_eq(sink, &combined_exp, &combined);
    let lam_vn = ef_scale_by_base(&lambda, &pv[OFF_COMBINED + 6]);
    let out_exp = ef_sub_limbs(&combined, &lam_vn);
    ef_assert_eq(sink, &out_exp, &out);
    proof {
        assert(v[1630] == pv@[1630].val());
        assert(sink.emitted() =~= e0 + leaf_reduction_part(v));
    }
}

/// A row padded with zeros.
pub open spec fn padded_row(px: Seq<int>) -> Seq<int> {
    Seq::new(
        68,
        |i: int|
            if i < px.len() {
                px[i]
            } else {
                0
            },
    )
}

/// Elements padded with zeros.
pub open spec fn padded_elements(pz: Seq<Ext>) -> Seq<Ext> {
    Seq::new(
        68,
        |i: int|
            if i < pz.len() {
                pz[i]
            } else {
                ezero()
            },
    )
}

/// The running powers: they stop at `alpha^w`.
pub open spec fn running_powers(alpha: Ext, w: nat) -> Seq<Ext> {
    Seq::new(69, |i: int| epow(alpha, shorter(i as nat, w)))
}

/// All powers.
pub open spec fn all_powers(alpha: Ext) -> Seq<Ext> {
    Seq::new(68, |i: int| epow(alpha, i as nat))
}

/// The running combinations of padded rows.
pub open spec fn running_sums(alpha: Ext, px: Seq<int>, pz: Seq<Ext>) -> Seq<Ext> {
    Seq::new(
        68,
        |i: int| deep_linear(alpha, padded_row(px), padded_elements(pz), (i + 1) as nat),
    )
}

/// The elements of one reduction.
pub open spec fn reduction_elements(
    alpha: Ext,
    sx: int,
    sy: int,
    at: (Ext, Ext),
    px: Seq<int>,
    pz: Seq<Ext>,
) -> Seq<Ext> {
    let (re, im) = vanishing_parts(sx, sy, at);
    seq![
        re,
        im,
        esub(re, emul(epow(alpha, px.len()), im)),
        vanishing_norm(sx, sy, at),
        deep_linear(alpha, px, pz, shorter(px.len(), pz.len())),
        deep_quotient(alpha, sx, sy, at, px, pz),
    ]
}

/// What a leaf reduction is made from.
pub struct LeafInput {
    pub alpha: Ext,
    pub sx: int,
    pub sy: int,
    pub zeta: Ext,
    pub zeta_next: Ext,
    pub px: Seq<int>,
    pub pz_local: Seq<Ext>,
    pub pz_next: Seq<Ext>,
    pub lambda: Ext,
    pub log_n: nat,
}

impl LeafInput {
    pub open spec fn at(self) -> (Ext, Ext) {
        projective_point(self.zeta)
    }

    pub open spec fn atn(self) -> (Ext, Ext) {
        projective_point(self.zeta_next)
    }

    /// Both reductions combined.
    pub open spec fn combined(self) -> Ext {
        eadd(
            deep_quotient(self.alpha, self.sx, self.sy, self.at(), self.px, self.pz_local),
            emul(
                esquare(epow(self.alpha, self.px.len())),
                deep_quotient(self.alpha, self.sx, self.sy, self.atn(), self.px, self.pz_next),
            ),
        )
    }

    pub open spec fn out(self) -> Ext {
        lambda_corrected(self.combined(), self.lambda, self.sx, self.log_n)
    }

    pub open spec fn red0(self) -> Seq<Ext> {
        reduction_elements(self.alpha, self.sx, self.sy, self.at(), self.px, self.pz_local)
    }

    pub open spec fn red1(self) -> Seq<Ext> {
        reduction_elements(self.alpha, self.sx, self.sy, self.atn(), self.px, self.pz_next)
    }

    /// The elements of the publics, in order.
    pub open spec fn elements(self) -> Seq<Ext> {
        padded_elements(self.pz_local) + padded_elements(self.pz_next) + running_powers(
            self.alpha,
            self.px.len(),
        ) + seq![esquare(epow(self.alpha, self.px.len()))] + self.red0() + all_powers(self.alpha)
            + running_sums(self.alpha, self.px, self.pz_local) + self.red1() + all_powers(
            self.alpha,
        ) + running_sums(self.alpha, self.px, self.pz_next) + seq![self.combined(), self.lambda]
    }

    /// The publics before the elements.
    pub open spec fn head(self) -> Seq<int> {
        seq![self.sx, self.sy] + exts(
            seq![self.at().0, self.at().1, self.atn().0, self.atn().1, self.alpha],
        ) + seq![self.px.len() as int] + Seq::new(
            68,
            |i: int|
                if i < self.px.len() {
                    1int
                } else {
                    0int
                },
        ) + padded_row(self.px)
    }

    /// The publics.
    pub open spec fn publics(self) -> Seq<int> {
        self.head() + exts(self.elements()) + seq![v_n(self.sx, self.log_n)] + exts(
            seq![self.out()],
        )
    }

    /// The reductions are defined and the rows fit.
    pub open spec fn report(self) -> Option<DeepRoError> {
        leaf_report(
            self.sx,
            self.sy,
            self.zeta,
            self.zeta_next,
            self.px.len(),
            self.pz_local.len(),
            self.pz_next.len(),
        )
    }
}

/// The elements of a reduction's witness.
fn push_deep_partial(out: &mut Vec<Challenge>, d: &DeepPartialWitness)
    ensures
        evals_of(final(out)@) == evals_of(old(out)@) + seq![
            d.re@,
            d.im@,
            d.numer@,
            d.denom@,
            d.linear@,
            d.out_pre@,
        ],
{
    out.push(d.re);
    out.push(d.im);
    out.push(d.numer);
    out.push(d.denom);
    out.push(d.linear);
    out.push(d.out_pre);
    proof {
        assert(evals_of(out@) =~= evals_of(old(out)@) + seq![
            d.re@,
            d.im@,
            d.numer@,
            d.denom@,
            d.linear@,
            d.out_pre@,
        ]);
    }
}

/// Appends elements padded with zeros.
fn push_padded(out: &mut Vec<Challenge>, pz: &[Challenge])
    requires
        pz@.len() <= 68,
    ensures
        evals_of(final(out)@) == evals_of(old(out)@) + padded_elements(evals_of(pz@)),
{
    let ghost before = evals_of(out@);
    let ghost want = padded_elements(evals_of(pz@));
    proof {
        assert(before + want.take(0) =~= before);
    }
    let zero = Challenge::zero();
    let mut i: usize = 0;
    while i < LEAF_DEEP_RO_MAX_WIDTH
        invariant
            i <= 68,
            zero@ == ezero(),
            want == padded_elements(evals_of(pz@)),
            evals_of(out@) == before + want.take(i as int),
        decreases 68 - i,
    {
        let c = if i < pz.len() {
            pz[i]
        } else {
            zero
        };
        let ghost prev = out@;
        out.push(c);
        proof {
            assert(c@ == want[i as int]);
            assert(evals_of(out@) =~= evals_of(prev).push(c@));
            assert(want.take(i + 1) =~= want.take(i as int).push(want[i as int]));
            assert(evals_of(out@) =~= before + want.take(i + 1));
        }
        i += 1;
    }
    proof {
        assert(want.take(68) =~= want);
    }
}

/// Appends the running powers.
fn push_running_powers(out: &mut Vec<Challenge>, alpha: &Challenge, width: usize)
    requires
        width <= 68,
    ensures
        evals_of(final(out)@) == evals_of(old(out)@) + running_powers(alpha@, width as nat),
{
    let ghost before = evals_of(out@);
    let ghost want = running_powers(alpha@, width as nat);
    let mut apow = Challenge::one();
    let ghost prev = out@;
    out.push(apow);
    proof {
        assert(evals_of(out@) =~= before + want.take(1));
    }
    let mut i: usize = 0;
    while i < LEAF_DEEP_RO_MAX_WIDTH
        invariant
            i <= 68,
            width <= 68,
            want == running_powers(alpha@, width as nat),
            apow@ == epow(alpha@, shorter(i as nat, width as nat)),
            evals_of(out@) == before + want.take(i + 1),
        decreases 68 - i,
    {
        if i < width {
            apow = apow.times(alpha);
        }
        let ghost prev = out@;
        out.push(apow);
        proof {
            assert(apow@ == want[i + 1]);
            assert(evals_of(out@) =~= evals_of(prev).push(apow@));
            assert(want.take(i + 2) =~= want.take(i + 1).push(want[i + 1]));
            assert(evals_of(out@) =~= before + want.take(i + 2));
        }
        i += 1;
    }
    proof {
        assert(want.take(69) =~= want);
    }
}

/// Appends the powers and the running combinations of padded rows.
fn push_horner_blocks_padded(
    out: &mut Vec<Challenge>,
    alpha: &Challenge,
    px: &[Val],
    pz: &[Challenge],
)
    requires
        px@.len() <= 68,
        pz@.len() == px@.len(),
    ensures
        evals_of(final(out)@) == evals_of(old(out)@) + all_powers(alpha@) + running_sums(
            alpha@,
            vals(px@),
            evals_of(pz@),
        ),
{
    let ghost before = evals_of(out@);
    let ghost ppx = padded_row(vals(px@));
    let ghost ppz = padded_elements(evals_of(pz@));
    let ghost pw = all_powers(alpha@);
    let ghost sm = running_sums(alpha@, vals(px@), evals_of(pz@));
    let zero = Challenge::zero();
    let mut pow = Challenge::one();
    let mut acc = Challenge::zero();
    let mut accs: Vec<Challenge> = Vec::new();
    proof {
        assert(before + pw.take(0) =~= before);
        assert(evals_of(accs@) =~= sm.take(0));
    }
    let mut i: usize = 0;
    while i < LEAF_DEEP_RO_MAX_WIDTH
        invariant
            i <= 68,
            px@.len() <= 68,
            pz@.len() == px@.len(),
            zero@ == ezero(),
            ppx == padded_row(vals(px@)),
            ppz == padded_elements(evals_of(pz@)),
            pw == all_powers(alpha@),
            sm == running_sums(alpha@, vals(px@), evals_of(pz@)),
            pow@ == epow(alpha@, i as nat),
            acc@ == deep_linear(alpha@, ppx, ppz, i as nat),
            evals_of(out@) == before + pw.take(i as int),
            evals_of(accs@) == sm.take(i as int),
        decreases 68 - i,
    {
        let c = if i < px.len() {
            Challenge::from_base(px[i]).minus(&pz[i])
        } else {
            zero
        };
        proof {
            assert(esub(ebase(0), ezero()) == ezero());
            assert(c@ == esub(ebase(ppx[i as int]), ppz[i as int]));
        }
        acc = acc.plus(&pow.times(&c));
        let ghost prev = out@;
        let ghost prev_accs = accs@;
        out.push(pow);
        accs.push(acc);
        proof {
            assert(pow@ == pw[i as int]);
            assert(acc@ == sm[i as int]);
            assert(evals_of(out@) =~= evals_of(prev).push(pow@));
            assert(evals_of(accs@) =~= evals_of(prev_accs).push(acc@));
            assert(pw.take(i + 1) =~= pw.take(i as int).push(pw[i as int]));
            assert(sm.take(i + 1) =~= sm.take(i as int).push(sm[i as int]));
            assert(evals_of(out@) =~= before + pw.take(i + 1));
        }
        pow = pow.times(alpha);
        i += 1;
    }
    proof {
        assert(pw.take(68) =~= pw);
        assert(sm.take(68) =~= sm);
    }
    append_challenges(out, accs.as_slice());
}

/// Appends challenges.
fn append_challenges(out: &mut Vec<Challenge>, s: &[Challenge])
    ensures
        evals_of(final(out)@) == evals_of(old(out)@) + evals_of(s@),
{
    let ghost before = evals_of(out@);
    let ghost want = evals_of(s@);
    proof {
        assert(before + want.take(0) =~= before);
    }
    let mut i: usize = 0;
    while i < s.len()
        invariant
            i <= s.len(),
            want == evals_of(s@),
            evals_of(out@) == before + want.take(i as int),
        decreases s.len() - i,
    {
        let ghost prev = out@;
        out.push(s[i]);
        proof {
            assert(evals_of(out@) =~= evals_of(prev).push(s@[i as int]@));
            assert(want.take(i + 1) =~= want.take(i as int).push(want[i as int]));
            assert(evals_of(out@) =~= before + want.take(i + 1));
        }
        i += 1;
    }
    proof {
        assert(want.take(want.len() as int) =~= want);
    }
}

/// The input of a leaf reduction.
pub open spec fn leaf_input(
    sx: Val,
    sy: Val,
    alpha: Challenge,
    px: Seq<Val>,
    pz_local: Seq<Challenge>,
    pz_next: Seq<Challenge>,
    lambda: Challenge,
    log_n: nat,
    zeta: Challenge,
    zeta_next: Challenge,
) -> LeafInput {
    LeafInput {
        alpha: alpha@,
        sx: sx@,
        sy: sy@,
        zeta: zeta@,
        zeta_next: zeta_next@,
        px: vals(px),
        pz_local: evals_of(pz_local),
        pz_next: evals_of(pz_next),
        lambda: lambda@,
        log_n,
    }
}

/// The publics of a leaf reduction, its result and its base value.
pub fn build_public_values(
    sx: Val,
    sy: Val,
    alpha: Challenge,
    px: &[Val],
    pz_local: &[Challenge],
    pz_next: &[Challenge],
    lambda: Challenge,
    log_n: usize,
    zeta: Challenge,
    zeta_next: Challenge,
) -> (r: Result<(Vec<Val>, Challenge, Val), DeepRoError>)
    ensures
        ({
            let l = leaf_input(
                sx,
                sy,
                alpha,
                px@,
                pz_local@,
                pz_next@,
                lambda,
                log_n as nat,
                zeta,
                zeta_next,
            );
            match l.report() {
                Some(e) => r == Err::<(Vec<Val>, Challenge, Val), DeepRoError>(e),
                None => r matches Ok(p) && vals(p.0@) == l.publics() && p.1@ == l.out() && p.2@
                    == v_n(sx@, log_n as nat),
            }
        }),
{
    let ghost l = leaf_input(
        sx,
        sy,
        alpha,
        px@,
        pz_local@,
        pz_next@,
        lambda,
        log_n as nat,
        zeta,
        zeta_next,
    );
    let w = match deep_ro_leaf_trace_witness(
        alpha,
        sx,
        sy,
        zeta,
        zeta_next,
        px,
        pz_local,
        pz_next,
        lambda,
        log_n,
    ) {
        Ok(w) => w,
        Err(e) => {
            return Err(e);
        },
    };
    let mut pv = build_head(sx, sy, alpha, px, &w, Ghost(l));
    let elems = build_elements(alpha, px, pz_local, pz_next, lambda, &w, Ghost(l));
    push_challenges(&mut pv, elems.as_slice());
    push_val(&mut pv, w.v_n);
    let last: [Challenge; 1] = [w.out];
    push_challenges(&mut pv, vstd::array::array_as_slice(&last));
    proof {
        assert(evals_of(last@) =~= seq![l.out()]);
        assert((l.head() + exts(l.elements())).push(v_n(l.sx, l.log_n)) =~= l.head() + exts(
            l.elements(),
        ) + seq![v_n(l.sx, l.log_n)]);
    }
    Ok((pv, w.out, w.v_n))
}

/// `w` is the witness of `l`.
pub open spec fn witnesses(w: DeepRoLeafTraceWitness, l: LeafInput) -> bool {
    is_leaf_witness(
        w,
        l.alpha,
        l.sx,
        l.sy,
        l.zeta,
        l.zeta_next,
        l.px,
        l.pz_local,
        l.pz_next,
        l.lambda,
        l.log_n,
    )
}

/// The publics before the elements.
fn build_head(
    sx: Val,
    sy: Val,
    alpha: Challenge,
    px: &[Val],
    w: &DeepRoLeafTraceWitness,
    Ghost(l): Ghost<LeafInput>,
) -> (pv: Vec<Val>)
    requires
        witnesses(*w, l),
        l.sx == sx@,
        l.sy == sy@,
        l.alpha == alpha@,
        l.px == vals(px@),
        px@.len() <= 68,
    ensures
        vals(pv@) == l.head(),
{
    let mut pv: Vec<Val> = Vec::new();
    push_val(&mut pv, sx);
    push_val(&mut pv, sy);
    proof {
        assert(vals(pv@) =~= seq![l.sx, l.sy]);
    }
    let first: [Challenge; 5] = [w.at_x, w.at_y, w.atn_x, w.atn_y, alpha];
    push_challenges(&mut pv, vstd::array::array_as_slice(&first));
    let ghost before = vals(pv@);
    push_val(&mut pv, Val::from_u32(px.len() as u32));
    proof {
        assert(evals_of(first@) =~= seq![l.at().0, l.at().1, l.atn().0, l.atn().1, l.alpha]);
        assert(px@.len() as int % P as int == px@.len());
        assert(vals(pv@) =~= before + seq![l.px.len() as int]);
    }
    push_active_and_row(&mut pv, px);
    proof {
        let flags = Seq::new(
            68,
            |i: int|
                if i < px@.len() {
                    1int
                } else {
                    0int
                },
        );
        assert(flags =~= Seq::new(
            68,
            |i: int|
                if i < l.px.len() {
                    1int
                } else {
                    0int
                },
        ));
    }
    pv
}

/// The elements of the publics.
fn build_elements(
    alpha: Challenge,
    px: &[Val],
    pz_local: &[Challenge],
    pz_next: &[Challenge],
    lambda: Challenge,
    w: &DeepRoLeafTraceWitness,
    Ghost(l): Ghost<LeafInput>,
) -> (elems: Vec<Challenge>)
    requires
        witnesses(*w, l),
        l.alpha == alpha@,
        l.px == vals(px@),
        l.pz_local == evals_of(pz_local@),
        l.pz_next == evals_of(pz_next@),
        l.lambda == lambda@,
        px@.len() <= 68,
        pz_local@.len() == px@.len(),
        pz_next@.len() == px@.len(),
    ensures
        evals_of(elems@) == l.elements(),
{
    let mut elems: Vec<Challenge> = Vec::new();
    push_padded(&mut elems, pz_local);
    proof {
        assert(evals_of(elems@) =~= padded_elements(l.pz_local));
    }
    push_padded(&mut elems, pz_next);
    push_running_powers(&mut elems, &alpha, px.len());
    let one_elem: [Challenge; 1] = [w.alpha_w2];
    append_challenges(&mut elems, vstd::array::array_as_slice(&one_elem));
    push_deep_partial(&mut elems, &w.deep0);
    push_horner_blocks_padded(&mut elems, &alpha, px, pz_local);
    push_deep_partial(&mut elems, &w.deep1);
    push_horner_blocks_padded(&mut elems, &alpha, px, pz_next);
    let two: [Challenge; 2] = [w.combined, lambda];
    append_challenges(&mut elems, vstd::array::array_as_slice(&two));
    proof {
        assert(evals_of(one_elem@) =~= seq![w.alpha_w2@]);
        assert(evals_of(two@) =~= seq![w.combined@, lambda@]);
    }
    elems
}

/// Appends the flags and the padded row.
fn push_active_and_row(pv: &mut Vec<Val>, px: &[Val])
    requires
        px@.len() <= 68,
    ensures
        vals(final(pv)@) == vals(old(pv)@) + Seq::new(
            68,
            |i: int|
                if i < px@.len() {
                    1int
                } else {
                    0int
                },
        ) + padded_row(vals(px@)),
{
    let ghost flags = Seq::new(
        68,
        |i: int|
            if i < px@.len() {
                1int
            } else {
                0int
            },
    );
    let ghost row = padded_row(vals(px@));
    let ghost before = vals(pv@);
    proof {
        assert(before + flags.take(0) =~= before);
    }
    let mut i: usize = 0;
    while i < LEAF_DEEP_RO_MAX_WIDTH
        invariant
            i <= 68,
            flags == Seq::new(
                68,
                |i: int|
                    if i < px@.len() {
                        1int
                    } else {
                        0int
                    },
            ),
            vals(pv@) == before + flags.take(i as int),
        decreases 68 - i,
    {
        push_val(pv, Val::from_bool(i < px.len()));
        proof {
            assert(flags.take(i + 1) =~= flags.take(i as int).push(flags[i as int]));
            assert(vals(pv@) =~= before + flags.take(i + 1));
        }
        i += 1;
    }
    proof {
        assert(flags.take(68) =~= flags);
        assert(before + flags + row.take(0) =~= before + flags);
    }
    let zero = Val::zero();
    let mut i: usize = 0;
    while i < LEAF_DEEP_RO_MAX_WIDTH
        invariant
            i <= 68,
            zero@ == 0,
            row == padded_row(vals(px@)),
            vals(pv@) == before + flags + row.take(i as int),
        decreases 68 - i,
    {
        let x = if i < px.len() {
            px[i]
        } else {
            zero
        };
        push_val(pv, x);
        proof {
            assert(x@ == row[i as int]);
            assert(row.take(i + 1) =~= row.take(i as int).push(row[i as int]));
            assert(vals(pv@) =~= before + flags + row.take(i + 1));
        }
        i += 1;
    }
    proof {
        assert(row.take(68) =~= row);
    }
}

/// A leaf reduction with its proof bytes.
#[derive(Debug, Clone, PartialEq, Eq)]
pub struct DeepRoLeafTraceStepProof {
    pub sx: Val,
    pub sy: Val,
    pub alpha_limbs: [Val; 3],
    pub width: u32,
    pub px: Vec<Val>,
    pub pz_local_limbs: Vec<[Val; 3]>,
    pub pz_next_limbs: Vec<[Val; 3]>,
    pub lambda_limbs: [Val; 3],
    pub v_n: Val,
    pub out_limbs: [Val; 3],
    pub log_n: u32,
    pub zeta_limbs: [Val; 3],
    pub zeta_next_limbs: [Val; 3],
    pub deep_stark: Vec<u8>,
}

/// The elements with the given limbs.
pub open spec fn limb_exts(s: Seq<[Val; 3]>) -> Seq<Ext> {
    Seq::new(s.len(), |i: int| limb_ext(s[i]@))
}

impl DeepRoLeafTraceStepProof {
    pub open spec fn out(self) -> Ext {
        limb_ext(self.out_limbs@)
    }

    /// What the step is made from.
    pub open spec fn input(self) -> LeafInput {
        LeafInput {
            alpha: limb_ext(self.alpha_limbs@),
            sx: self.sx@,
            sy: self.sy@,
            zeta: limb_ext(self.zeta_limbs@),
            zeta_next: limb_ext(self.zeta_next_limbs@),
            px: vals(self.px@),
            pz_local: limb_exts(self.pz_local_limbs@),
            pz_next: limb_exts(self.pz_next_limbs@),
            lambda: limb_ext(self.lambda_limbs@),
            log_n: self.log_n as nat,
        }
    }

    /// The step states a reduction.
    pub open spec fn holds(self) -> bool {
        &&& self.px@.len() == self.width
        &&& self.pz_local_limbs@.len() == self.width
        &&& self.pz_next_limbs@.len() == self.width
        &&& self.input().report() is None
        &&& self.out() == self.input().out()
        &&& self.v_n@ == v_n(self.sx@, self.log_n as nat)
    }
}

/// The limbs of challenges.
fn all_limbs(s: &[Challenge]) -> (r: Vec<[Val; 3]>)
    ensures
        limb_exts(r@) == evals_of(s@),
        r@.len() == s@.len(),
{
    let mut r: Vec<[Val; 3]> = Vec::new();
    let mut i: usize = 0;
    while i < s.len()
        invariant
            i <= s.len(),
            r@.len() == i,
            forall|j: int| 0 <= j < i ==> limb_ext((#[trigger] r@[j])@) == s@[j]@,
        decreases s.len() - i,
    {
        r.push(challenge_to_limbs(s[i]));
        i += 1;
    }
    proof {
        assert(limb_exts(r@) =~= evals_of(s@));
    }
    r
}

/// The challenges with the given limbs.
fn all_challenges(s: &Vec<[Val; 3]>) -> (r: Vec<Challenge>)
    ensures
        evals_of(r@) == limb_exts(s@),
        r@.len() == s@.len(),
{
    let mut r: Vec<Challenge> = Vec::new();
    let mut i: usize = 0;
    while i < s.len()
        invariant
            i <= s.len(),
            r@.len() == i,
            forall|j: int| 0 <= j < i ==> (#[trigger] r@[j])@ == limb_ext(s@[j]@),
        decreases s.len() - i,
    {
        r.push(limbs_to_challenge(s[i]));
        i += 1;
    }
    proof {
        assert(evals_of(r@) =~= limb_exts(s@));
    }
    r
}

/// A copy of a row.
fn copy_row(s: &[Val]) -> (r: Vec<Val>)
    ensures
        r@ == s@,
{
    let mut r: Vec<Val> = Vec::new();
    let mut i: usize = 0;
    while i < s.len()
        invariant
            i <= s.len(),
            r@ == s@.take(i as int),
        decreases s.len() - i,
    {
        r.push(s[i]);
        i += 1;
        proof {
            assert(r@ =~= s@.take(i as int));
        }
    }
    proof {
        assert(s@.take(s@.len() as int) =~= s@);
    }
    r
}

/// Why a leaf reduction was not proven.
#[derive(Debug, Clone, PartialEq, Eq)]
pub enum LeafProofError {
    LogNOutOfRange,
    /// The query count is zero or too large.
    QueryCount(usize),
    Reduction(DeepRoError),
    /// The proof system reported an error.
    Backend(String),
}

/// The outcome of proving a leaf reduction with `prover`.
pub open spec fn leaf_prove_outcome<
    F: Fn(&DeepRoLeafTraceAir, &RowMajorMatrix, &[Val]) -> Result<Vec<u8>, String>,
>(
    prover: F,
    l: LeafInput,
    num_queries: usize,
    r: Result<DeepRoLeafTraceStepProof, LeafProofError>,
) -> bool {
    if l.log_n == 0 || l.log_n > 16 {
        r == Err::<DeepRoLeafTraceStepProof, LeafProofError>(LeafProofError::LogNOutOfRange)
    } else if num_queries == 0 || num_queries > DEVNET_FRI_NUM_QUERIES {
        r == Err::<DeepRoLeafTraceStepProof, LeafProofError>(
            LeafProofError::QueryCount(num_queries),
        )
    } else if l.report() is Some {
        r == Err::<DeepRoLeafTraceStepProof, LeafProofError>(
            LeafProofError::Reduction(l.report()->0),
        )
    } else {
        match r {
            Ok(s) => s.input() == l && s.holds() && prover_reply(
                prover,
                DeepRoLeafTraceAir,
                deep_trace(),
                l.publics(),
                Ok(s.deep_stark),
            ),
            Err(e) => e matches LeafProofError::Backend(text) && prover_reply(
                prover,
                DeepRoLeafTraceAir,
                deep_trace(),
                l.publics(),
                Err(text),
            ),
        }
    }
}

/// Proves a leaf reduction with a prover set up for the largest number of queries.
pub fn generate_deep_ro_leaf_trace_proof<
    F: Fn(&DeepRoLeafTraceAir, &RowMajorMatrix, &[Val]) -> Result<Vec<u8>, String>,
>(
    sx: Val,
    sy: Val,
    alpha: Challenge,
    px: &[Val],
    pz_local: &[Challenge],
    pz_next: &[Challenge],
    lambda: Challenge,
    log_n: usize,
    zeta: Challenge,
    zeta_next: Challenge,
    prover: &F,
) -> (r: Result<DeepRoLeafTraceStepProof, LeafProofError>)
    requires
        prover_ready::<DeepRoLeafTraceAir, F>(*prover),
    ensures
        leaf_prove_outcome(
            *prover,
            leaf_input(
                sx,
                sy,
                alpha,
                px@,
                pz_local@,
                pz_next@,
                lambda,
                log_n as nat,
                zeta,
                zeta_next,
            ),
            DEVNET_FRI_NUM_QUERIES,
            r,
        ),
{
    generate_deep_ro_leaf_trace_proof_with_queries(
        sx,
        sy,
        alpha,
        px,
        pz_local,
        pz_next,
        lambda,
        log_n,
        zeta,
        zeta_next,
        DEVNET_FRI_NUM_QUERIES,
        prover,
    )
}

/// Proves a leaf reduction with a prover set up for `num_queries` queries.
pub fn generate_deep_ro_leaf_trace_proof_with_queries<
    F: Fn(&DeepRoLeafTraceAir, &RowMajorMatrix, &[Val]) -> Result<Vec<u8>, String>,
>(
    sx: Val,
    sy: Val,
    alpha: Challenge,
    px: &[Val],
    pz_local: &[Challenge],
    pz_next: &[Challenge],
    lambda: Challenge,
    log_n: usize,
    zeta: Challenge,
    zeta_next: Challenge,
    num_queries: usize,
    prover: &F,
) -> (r: Result<DeepRoLeafTraceStepProof, LeafProofError>)
    requires
        prover_ready::<DeepRoLeafTraceAir, F>(*prover),
    ensures
        leaf_prove_outcome(
            *prover,
            leaf_input(
                sx,
                sy,
                alpha,
                px@,
                pz_local@,
                pz_next@,
                lambda,
                log_n as nat,
                zeta,
                zeta_next,
            ),
            num_queries,
            r,
        ),
{
    if log_n == 0 || log_n > 16 {
        return Err(LeafProofError::LogNOutOfRange);
    }
    if num_queries == 0 || num_queries > DEVNET_FRI_NUM_QUERIES {
        return Err(LeafProofError::QueryCount(num_queries));
    }
    let (pv, out, vn) = match build_public_values(
        sx,
        sy,
        alpha,
        px,
        pz_local,
        pz_next,
        lambda,
        log_n,
        zeta,
        zeta_next,
    ) {
        Ok(p) => p,
        Err(e) => {
            return Err(LeafProofError::Reduction(e));
        },
    };
    let matrix = flag_matrix(2);
    let air = DeepRoLeafTraceAir;
    match ask_prover(prover, &air, &matrix, &pv, Ghost(deep_trace())) {
        Ok(deep_stark) => {
            let s = DeepRoLeafTraceStepProof {
                sx,
                sy,
                alpha_limbs: challenge_to_limbs(alpha),
                width: px.len() as u32,
                px: copy_row(px),
                pz_local_limbs: all_limbs(pz_local),
                pz_next_limbs: all_limbs(pz_next),
                lambda_limbs: challenge_to_limbs(lambda),
                v_n: vn,
                out_limbs: challenge_to_limbs(out),
                log_n: log_n as u32,
                zeta_limbs: challenge_to_limbs(zeta),
                zeta_next_limbs: challenge_to_limbs(zeta_next),
                deep_stark,
            };
            proof {
                assert(s.input() == leaf_input(
                    sx,
                    sy,
                    alpha,
                    px@,
                    pz_local@,
                    pz_next@,
                    lambda,
                    log_n as nat,
                    zeta,
                    zeta_next,
                ));
            }
            Ok(s)
        },
        Err(e) => Err(LeafProofError::Backend(e)),
    }
}

/// The verdict on a leaf reduction: false where it does not hold, else the verifier's verdict
/// on its proof bytes.
pub open spec fn leaf_verify_outcome<V: Fn(&DeepRoLeafTraceAir, &[Val], &[u8]) -> bool>(
    verifier: V,
    s: DeepRoLeafTraceStepProof,
    r: bool,
) -> bool {
    if s.holds() {
        verifier_verdict(verifier, DeepRoLeafTraceAir, s.input().publics(), s.deep_stark@, r)
    } else {
        !r
    }
}

/// Checks a leaf reduction. One that divides by zero is not valid.
pub fn verify_deep_ro_leaf_trace_proof<V: Fn(&DeepRoLeafTraceAir, &[Val], &[u8]) -> bool>(
    proof: &DeepRoLeafTraceStepProof,
    verifier: &V,
) -> (r: bool)
    requires
        verifier_ready::<DeepRoLeafTraceAir, V>(*verifier),
    ensures
        leaf_verify_outcome(*verifier, *proof, r),
{
    let alpha = limbs_to_challenge(proof.alpha_limbs);
    let width: usize = proof.width as usize;
    if proof.px.len() != width || proof.pz_local_limbs.len() != width
        || proof.pz_next_limbs.len() != width {
        return false;
    }
    let pz_local = all_challenges(&proof.pz_local_limbs);
    let pz_next = all_challenges(&proof.pz_next_limbs);
    let lambda = limbs_to_challenge(proof.lambda_limbs);
    let zeta = limbs_to_challenge(proof.zeta_limbs);
    let zeta_next = limbs_to_challenge(proof.zeta_next_limbs);
    let out = limbs_to_challenge(proof.out_limbs);
    let (pv, expect_out, vn) = match build_public_values(
        proof.sx,
        proof.sy,
        alpha,
        proof.px.as_slice(),
        pz_local.as_slice(),
        pz_next.as_slice(),
        lambda,
        proof.log_n as usize,
        zeta,
        zeta_next,
    ) {
        Ok(p) => p,
        Err(_) => {
            return false;
        },
    };
    if !out.same(&expect_out) {
        return false;
    }
    if !proof.v_n.same(&vn) {
        return false;
    }
    let air = DeepRoLeafTraceAir;
    ask_verifier(verifier, &air, &pv, &proof.deep_stark)
}

} // verus!
