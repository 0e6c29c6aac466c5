//! A width-three reduction as a constraint system over public values.
//!
//! The quotient is stated without a division: `out_pre denom = numer linear`.
//!
//! Publics: `sx`, `sy`, the evaluation point (two elements), `alpha`, the opened row, its
//! values at the evaluation point (three elements), `alpha^2`, `alpha^3`, `re`, `im`, `numer`,
//! `denom`, `linear`, `out_pre`, `lambda`, then `v_n` and `out`.
use vstd::prelude::*;

use crate::circle::v_n;
use crate::constraint::{
    all_zero, evals, lemma_all_zero_concat, ConstraintSink, Expr, Window, WindowVals,
};
use crate::deep_ro_native::{
    deep_defined, deep_linear, deep_quotient, deep_reduced, lambda_corrected, lemma_epow_small,
    projective_point, try_deep_ro_w3_witness, vanishing_norm, vanishing_parts,
};
use crate::ef_limbs::{
    ef_add_limbs, ef_assert_eq, ef_base_minus, ef_mul_limbs, ef_scale_by_base, ef_square_limbs, ef_sub_limbs,
    lemma_limb_differences, limb_differences, limbs, limbs_at, read_limbs,
};
use crate::ext::{
    eadd, ebase, ecanonical, emul, eneg, eone, epow, escale, esquare, esub, evals_of, ezero,
    Challenge, Ext,
};
use crate::ext_ring::{
    einv, lemma_einv, lemma_emul_assoc, lemma_emul_canonical, lemma_emul_comm, lemma_emul_one,
    lemma_escale_is_emul,
};
use crate::field::{canonical, fadd, fmul, fneg, fsub, vals, Val, P};
use crate::flag_air::{
    constrain_flag, exts, flag_constraints, flag_matrix, is_flag_trace, lemma_limbs_inside,
    limb_ext, push_challenges, push_vals,
};
use crate::fri_fold_native::{challenge_to_limbs, limbs_to_challenge};
use crate::matrix::{push_val, RowMajorMatrix};
use crate::proof_system::{
    ask_prover, ask_verifier, prover_ready, prover_reply, verifier_ready, verifier_verdict,
};

verus! {

/// Number of public values.
pub const DEEP_RO_NUM_PUBLIC: usize = 54;

/// Trace width: one flag column.
pub const DEEP_RO_WIDTH: usize = 1;

/// The largest domain logarithm that is proven.
pub const DEEP_RO_MAX_LOG_N: usize = 16;

/// The constraint system of a width-three reduction.
#[derive(Copy, Clone, Debug)]
pub struct DeepRoAir;

/// Ties `re`, `im`, `numer` and `denom` to the base point, the evaluation point and a power of
/// `alpha`.
pub open spec fn vanishing_constraints(
    sx: int,
    sy: int,
    at: (Ext, Ext),
    alpha_pow: Ext,
    re: Ext,
    im: Ext,
    numer: Ext,
    denom: Ext,
) -> Seq<int> {
    let parts = vanishing_parts(sx, sy, at);
    limb_differences(parts.0, re) + limb_differences(parts.1, im) + limb_differences(
        esub(re, emul(alpha_pow, im)),
        numer,
    ) + limb_differences(eadd(esquare(re), esquare(im)), denom)
}

/// The vanishing parts as the constraints compute them.
proof fn lemma_vanishing_forms(sx: int, sy: int, at: (Ext, Ext))
    ensures
        vanishing_parts(sx, sy, at) == (
            esub(eone(), eadd(escale(at.0, sx), escale(at.1, sy))),
            esub(ezero(), esub(escale(at.0, sy), escale(at.1, sx))),
        ),
{
    let n = eneg(at.1);
    lemma_escale_is_emul(at.0, sx);
    lemma_escale_is_emul(at.0, sy);
    lemma_escale_is_emul(n, sx);
    lemma_escale_is_emul(n, sy);
    lemma_sign_moves(at.0.c0, at.1.c0, sx, sy);
    lemma_sign_moves(at.0.c1, at.1.c1, sx, sy);
    lemma_sign_moves(at.0.c2, at.1.c2, sx, sy);
}

/// `x sx - (-y) sy = x sx + y sy`, and `x sy + (-y) sx = x sy - y sx`, on residues.
proof fn lemma_sign_moves(x: int, y: int, sx: int, sy: int)
    ensures
        fsub(fmul(x, sx), fmul(fneg(y), sy)) == fadd(fmul(x, sx), fmul(y, sy)),
        fadd(fmul(x, sy), fmul(fneg(y), sx)) == fsub(fmul(x, sy), fmul(y, sx)),
{
    lemma_neg_product(y, sx);
    lemma_neg_product(y, sy);
}

/// A negated factor negates the product.
proof fn lemma_neg_product(y: int, s: int)
    ensures
        fmul(fneg(y), s) == fneg(fmul(y, s)),
{
    let p: int = P as int;
    vstd::arithmetic::div_mod::lemma_mul_mod_noop_left(-y, s, p);
    assert((-y) * s == -(y * s)) by (nonlinear_arith);
    vstd::arithmetic::div_mod::lemma_sub_mod_noop(0, y * s, p);
    assert(0int % p == 0);
    vstd::arithmetic::div_mod::lemma_sub_mod_noop(0, (y * s) % p, p);
    assert(((y * s) % p) % p == (y * s) % p);
}

/// Emits the constraints on the vanishing parts.
pub fn constrain_vp_numer_denom<S: ConstraintSink>(
    sink: &mut S,
    sx: &S::E,
    sy: &S::E,
    at_x: &[S::E; 3],
    at_y: &[S::E; 3],
    alpha_pow_w: &[S::E; 3],
    re: &[S::E; 3],
    im: &[S::E; 3],
    numer: &[S::E; 3],
    denom: &[S::E; 3],
)
    ensures
        final(sink).emitted() == old(sink).emitted() + vanishing_constraints(
            sx.val(),
            sy.val(),
            (limbs(at_x@), limbs(at_y@)),
            limbs(alpha_pow_w@),
            limbs(re@),
            limbs(im@),
            limbs(numer@),
            limbs(denom@),
        ),
{
    let ghost e0 = sink.emitted();
    let one = <S::E as Expr>::lit(1);
    let zero = <S::E as Expr>::lit(0);
    let at_x_sx = ef_scale_by_base(at_x, sx);
    let at_y_sy = ef_scale_by_base(at_y, sy);
    let diff_x = ef_add_limbs(&at_x_sx, &at_y_sy);
    let at_x_sy = ef_scale_by_base(at_x, sy);
    let at_y_sx = ef_scale_by_base(at_y, sx);
    let diff_y = ef_sub_limbs(&at_x_sy, &at_y_sx);
    let re_exp = ef_base_minus(&one, &diff_x);
    let im_exp = ef_base_minus(&zero, &diff_y);
    proof {
        lemma_vanishing_forms(sx.val(), sy.val(), (limbs(at_x@), limbs(at_y@)));
        assert(ebase(1) == eone() && ebase(0) == ezero());
    }
    ef_assert_eq(sink, &re_exp, re);
    ef_assert_eq(sink, &im_exp, im);
    let a_im = ef_mul_limbs(alpha_pow_w, im);
    let numer_exp = ef_sub_limbs(re, &a_im);
    ef_assert_eq(sink, &numer_exp, numer);
    let re2 = ef_square_limbs(re);
    let im2 = ef_square_limbs(im);
    let denom_exp = ef_add_limbs(&re2, &im2);
    ef_assert_eq(sink, &denom_exp, denom);
    proof {
        assert(sink.emitted() =~= e0 + vanishing_constraints(
            sx.val(),
            sy.val(),
            (limbs(at_x@), limbs(at_y@)),
            limbs(alpha_pow_w@),
            limbs(re@),
            limbs(im@),
            limbs(numer@),
            limbs(denom@),
        ));
    }
}

/// `(px_0 - pz_0) + alpha (px_1 - pz_1) + alpha^2 (px_2 - pz_2)`.
pub open spec fn linear3(alpha: Ext, alpha2: Ext, px: Seq<int>, pz: Seq<Ext>) -> Ext {
    eadd(
        eadd(esub(ebase(px[0]), pz[0]), emul(alpha, esub(ebase(px[1]), pz[1]))),
        emul(alpha2, esub(ebase(px[2]), pz[2])),
    )
}

impl DeepRoAir {
    pub fn width(&self) -> (r: usize)
        ensures
            r == DEEP_RO_WIDTH,
    {
        DEEP_RO_WIDTH
    }

    pub fn max_constraint_degree(&self) -> (r: Option<usize>)
        ensures
            r == Some(2usize),
    {
        Some(2)
    }

    pub fn num_public_values(&self) -> (r: usize)
        ensures
            r == DEEP_RO_NUM_PUBLIC,
    {
        DEEP_RO_NUM_PUBLIC
    }

    /// The constraints on the public values.
    pub open spec fn public_constraints(&self, pv: Seq<int>) -> Seq<int> {
        let alpha = limbs_at(pv, 8);
        let alpha2 = limbs_at(pv, 23);
        let alpha3 = limbs_at(pv, 26);
        let numer = limbs_at(pv, 35);
        let denom = limbs_at(pv, 38);
        let linear = limbs_at(pv, 41);
        let out_pre = limbs_at(pv, 44);
        limb_differences(emul(alpha, alpha), alpha2) + limb_differences(
            emul(alpha2, alpha),
            alpha3,
        ) + vanishing_constraints(
            pv[0],
            pv[1],
            (limbs_at(pv, 2), limbs_at(pv, 5)),
            alpha3,
            limbs_at(pv, 29),
            limbs_at(pv, 32),
            numer,
            denom,
        ) + limb_differences(
            linear3(
                alpha,
                alpha2,
                pv.subrange(11, 14),
                seq![limbs_at(pv, 14), limbs_at(pv, 17), limbs_at(pv, 20)],
            ),
            linear,
        ) + limb_differences(emul(out_pre, denom), emul(numer, linear)) + limb_differences(
            esub(out_pre, escale(limbs_at(pv, 47), pv[50])),
            limbs_at(pv, 51),
        )
    }

    /// The flag constraints and those on the public values.
    pub open spec fn constraints(&self, w: WindowVals) -> Seq<int> {
        flag_constraints(w) + self.public_constraints(w.pv)
    }

    /// Emits the constraints.
    pub fn eval<S: ConstraintSink>(&self, sink: &mut S, w: &Window<S::E>)
        requires
            w.curr@.len() >= DEEP_RO_WIDTH,
            w.next@.len() >= DEEP_RO_WIDTH,
            w.pv@.len() >= DEEP_RO_NUM_PUBLIC,
        ensures
            final(sink).emitted() == old(sink).emitted() + self.constraints(w@),
    {
        let ghost e0 = sink.emitted();
        constrain_flag(sink, w);
        let pv: &[S::E] = w.pv.as_slice();
        let at_x = read_limbs(pv, 2);
        let at_y = read_limbs(pv, 5);
        let alpha = read_limbs(pv, 8);
        let pz0 = read_limbs(pv, 14);
        let pz1 = read_limbs(pv, 17);
        let pz2 = read_limbs(pv, 20);
        let alpha2 = read_limbs(pv, 23);
        let alpha3 = read_limbs(pv, 26);
        let re = read_limbs(pv, 29);
        let im = read_limbs(pv, 32);
        let numer = read_limbs(pv, 35);
        let denom = read_limbs(pv, 38);
        let linear = read_limbs(pv, 41);
        let out_pre = read_limbs(pv, 44);
        let lambda = read_limbs(pv, 47);
        let out = read_limbs(pv, 51);

        let alpha2_exp = ef_mul_limbs(&alpha, &alpha);
        ef_assert_eq(sink, &alpha2_exp, &alpha2);
        let alpha3_exp = ef_mul_limbs(&alpha2, &alpha);
        ef_assert_eq(sink, &alpha3_exp, &alpha3);
        constrain_vp_numer_denom(
            sink,
            &pv[0],
            &pv[1],
            &at_x,
            &at_y,
            &alpha3,
            &re,
            &im,
            &numer,
            &denom,
        );
        let c0 = ef_base_minus(&pv[11], &pz0);
        let c1 = ef_base_minus(&pv[12], &pz1);
        let c2 = ef_base_minus(&pv[13], &pz2);
        let a_c1 = ef_mul_limbs(&alpha, &c1);
        let a2_c2 = ef_mul_limbs(&alpha2, &c2);
        let lin01 = ef_add_limbs(&c0, &a_c1);
        let linear_exp = ef_add_limbs(&lin01, &a2_c2);
        ef_assert_eq(sink, &linear_exp, &linear);
        let lhs = ef_mul_limbs(&out_pre, &denom);
        let rhs = ef_mul_limbs(&numer, &linear);
        ef_assert_eq(sink, &lhs, &rhs);
        let lam_vn = ef_scale_by_base(&lambda, &pv[50]);
        let out_exp = ef_sub_limbs(&out_pre, &lam_vn);
        ef_assert_eq(sink, &out_exp, &out);
        proof {
            let v = w@.pv;
            assert(evals(pv@) == v);
            assert(v.subrange(11, 14) =~= seq![pv@[11].val(), pv@[12].val(), pv@[13].val()]);
            assert(sink.emitted() =~= e0 + self.constraints(w@));
        }
    }
}

/// The linear combination of three entries, by powers.
proof fn lemma_linear3(alpha: Ext, px: Seq<int>, pz: Seq<Ext>)
    requires
        ecanonical(alpha),
        px.len() == 3,
        pz.len() == 3,
    ensures
        linear3(alpha, epow(alpha, 2), px, pz) == deep_linear(alpha, px, pz, 3),
{
    reveal_with_fuel(deep_linear, 4);
    lemma_epow_small(alpha);
    let c0 = esub(ebase(px[0]), pz[0]);
    lemma_emul_one(c0);
    assert(epow(alpha, 0) == eone());
    assert(eadd(ezero(), c0) == c0);
}

/// Publics that satisfy the system state a reduction: where `denom` is invertible, `out` is the
/// row reduced at the stated evaluation point, less `lambda v_n`.
pub proof fn lemma_deep_ro_air_sound(pv: Seq<int>, i: Ext)
    requires
        pv.len() == DEEP_RO_NUM_PUBLIC,
        forall|k: int| 0 <= k < pv.len() ==> canonical(#[trigger] pv[k]),
        all_zero(DeepRoAir.public_constraints(pv)),
        ecanonical(i),
        emul(limbs_at(pv, 38), i) == eone(),
    ensures
        limbs_at(pv, 51) == esub(
            deep_quotient(
                limbs_at(pv, 8),
                pv[0],
                pv[1],
                (limbs_at(pv, 2), limbs_at(pv, 5)),
                pv.subrange(11, 14),
                seq![limbs_at(pv, 14), limbs_at(pv, 17), limbs_at(pv, 20)],
            ),
            emul(limbs_at(pv, 47), ebase(pv[50])),
        ),
{
    let alpha = limbs_at(pv, 8);
    let alpha2 = limbs_at(pv, 23);
    let alpha3 = limbs_at(pv, 26);
    let re = limbs_at(pv, 29);
    let im = limbs_at(pv, 32);
    let numer = limbs_at(pv, 35);
    let denom = limbs_at(pv, 38);
    let linear = limbs_at(pv, 41);
    let out_pre = limbs_at(pv, 44);
    let at = (limbs_at(pv, 2), limbs_at(pv, 5));
    let px = pv.subrange(11, 14);
    let pz = seq![limbs_at(pv, 14), limbs_at(pv, 17), limbs_at(pv, 20)];
    let parts = vanishing_parts(pv[0], pv[1], at);
    let s1 = limb_differences(emul(alpha, alpha), alpha2);
    let s2 = limb_differences(emul(alpha2, alpha), alpha3);
    let s3 = vanishing_constraints(pv[0], pv[1], at, alpha3, re, im, numer, denom);
    let s4 = limb_differences(linear3(alpha, alpha2, px, pz), linear);
    let s5 = limb_differences(emul(out_pre, denom), emul(numer, linear));
    let s6 = limb_differences(
        esub(out_pre, escale(limbs_at(pv, 47), pv[50])),
        limbs_at(pv, 51),
    );
    lemma_all_zero_concat(s1 + s2 + s3 + s4 + s5, s6);
    lemma_all_zero_concat(s1 + s2 + s3 + s4, s5);
    lemma_all_zero_concat(s1 + s2 + s3, s4);
    lemma_all_zero_concat(s1 + s2, s3);
    lemma_all_zero_concat(s1, s2);
    let t1 = limb_differences(parts.0, re);
    let t2 = limb_differences(parts.1, im);
    let t3 = limb_differences(esub(re, emul(alpha3, im)), numer);
    let t4 = limb_differences(eadd(esquare(re), esquare(im)), denom);
    lemma_all_zero_concat(t1 + t2 + t3, t4);
    lemma_all_zero_concat(t1 + t2, t3);
    lemma_all_zero_concat(t1, t2);
    assert(canonical(pv[8]) && canonical(pv[9]) && canonical(pv[10]));
    assert(canonical(pv[23]) && canonical(pv[24]) && canonical(pv[25]));
    assert(canonical(pv[26]) && canonical(pv[27]) && canonical(pv[28]));
    assert(canonical(pv[29]) && canonical(pv[30]) && canonical(pv[31]));
    assert(canonical(pv[32]) && canonical(pv[33]) && canonical(pv[34]));
    assert(canonical(pv[35]) && canonical(pv[36]) && canonical(pv[37]));
    assert(canonical(pv[38]) && canonical(pv[39]) && canonical(pv[40]));
    assert(canonical(pv[41]) && canonical(pv[42]) && canonical(pv[43]));
    assert(canonical(pv[44]) && canonical(pv[45]) && canonical(pv[46]));
    assert(canonical(pv[51]) && canonical(pv[52]) && canonical(pv[53]));
    lemma_emul_canonical(alpha, alpha);
    lemma_emul_canonical(alpha2, alpha);
    lemma_emul_canonical(out_pre, denom);
    lemma_emul_canonical(numer, linear);
    lemma_limb_differences(emul(alpha, alpha), alpha2);
    lemma_limb_differences(emul(alpha2, alpha), alpha3);
    lemma_limb_differences(parts.0, re);
    lemma_limb_differences(parts.1, im);
    lemma_limb_differences(esub(re, emul(alpha3, im)), numer);
    lemma_limb_differences(eadd(esquare(re), esquare(im)), denom);
    lemma_limb_differences(linear3(alpha, alpha2, px, pz), linear);
    lemma_limb_differences(emul(out_pre, denom), emul(numer, linear));
    lemma_limb_differences(
        esub(out_pre, escale(limbs_at(pv, 47), pv[50])),
        limbs_at(pv, 51),
    );
    lemma_epow_small(alpha);
    lemma_linear3(alpha, px, pz);
    lemma_escale_is_emul(limbs_at(pv, 47), pv[50]);
    assert(denom == vanishing_norm(pv[0], pv[1], at));
    lemma_divided(out_pre, denom, numer, linear, i);
}

/// `out denom = numer linear` divided by `denom`.
pub proof fn lemma_divided(out: Ext, denom: Ext, numer: Ext, linear: Ext, i: Ext)
    requires
        ecanonical(out),
        ecanonical(i),
        emul(denom, i) == eone(),
    ensures
        emul(out, denom) == emul(numer, linear) <==> out == emul(emul(numer, einv(denom)), linear),
{
    lemma_einv(denom, i);
    // (numer i) linear = (numer linear) i
    lemma_emul_assoc(numer, i, linear);
    lemma_emul_comm(i, linear);
    lemma_emul_assoc(numer, linear, i);
    // (out denom) i = out
    lemma_emul_assoc(out, denom, i);
    lemma_emul_one(out);
    // ((numer linear) i) denom = numer linear
    let nl = emul(numer, linear);
    lemma_emul_assoc(nl, i, denom);
    lemma_emul_comm(i, denom);
    lemma_emul_canonical(numer, linear);
    lemma_emul_one(nl);
}

/// What the publics of a reduction hold, in order.
pub open spec fn deep_ro_elements(
    alpha: Ext,
    sx: int,
    sy: int,
    zeta: Ext,
    px: Seq<int>,
    pz: Seq<Ext>,
    lambda: Ext,
) -> Seq<Ext> {
    let at = projective_point(zeta);
    let (re, im) = vanishing_parts(sx, sy, at);
    seq![
        pz[0],
        pz[1],
        pz[2],
        epow(alpha, 2),
        epow(alpha, 3),
        re,
        im,
        esub(re, emul(epow(alpha, 3), im)),
        vanishing_norm(sx, sy, at),
        deep_linear(alpha, px, pz, 3),
        deep_reduced(alpha, sx, sy, zeta, px, pz),
        lambda,
    ]
}

/// The result of a corrected reduction.
pub open spec fn deep_ro_out(
    alpha: Ext,
    sx: int,
    sy: int,
    zeta: Ext,
    px: Seq<int>,
    pz: Seq<Ext>,
    lambda: Ext,
    log_n: nat,
) -> Ext {
    lambda_corrected(deep_reduced(alpha, sx, sy, zeta, px, pz), lambda, sx, log_n)
}

/// The publics of a reduction.
pub open spec fn deep_ro_publics(
    alpha: Ext,
    sx: int,
    sy: int,
    zeta: Ext,
    px: Seq<int>,
    pz: Seq<Ext>,
    lambda: Ext,
    log_n: nat,
) -> Seq<int> {
    let at = projective_point(zeta);
    seq![sx, sy] + exts(seq![at.0, at.1, alpha]) + px + exts(
        deep_ro_elements(alpha, sx, sy, zeta, px, pz, lambda),
    ) + seq![v_n(sx, log_n)] + exts(
        seq![deep_ro_out(alpha, sx, sy, zeta, px, pz, lambda, log_n)],
    )
}

/// At its offsets `pv` holds what the publics of a reduction hold.
spec fn states_reduction(
    pv: Seq<int>,
    alpha: Ext,
    sx: int,
    sy: int,
    zeta: Ext,
    px: Seq<int>,
    pz: Seq<Ext>,
    lambda: Ext,
    log_n: nat,
) -> bool {
    let at = projective_point(zeta);
    let e = deep_ro_elements(alpha, sx, sy, zeta, px, pz, lambda);
    &&& pv.len() == DEEP_RO_NUM_PUBLIC
    &&& pv[0] == sx && pv[1] == sy
    &&& limbs_at(pv, 2) == at.0 && limbs_at(pv, 5) == at.1 && limbs_at(pv, 8) == alpha
    &&& pv.subrange(11, 14) == px
    &&& forall|k: int| 0 <= k < 12 ==> #[trigger] limbs_at(pv, 14 + 3 * k) == e[k]
    &&& pv[50] == v_n(sx, log_n)
    &&& limbs_at(pv, 51) == deep_ro_out(alpha, sx, sy, zeta, px, pz, lambda, log_n)
}

/// What the offsets of a reduction's publics hold.
proof fn lemma_deep_ro_layout(
    alpha: Ext,
    sx: int,
    sy: int,
    zeta: Ext,
    px: Seq<int>,
    pz: Seq<Ext>,
    lambda: Ext,
    log_n: nat,
)
    requires
        px.len() == 3,
        pz.len() == 3,
    ensures
        states_reduction(
            deep_ro_publics(alpha, sx, sy, zeta, px, pz, lambda, log_n),
            alpha,
            sx,
            sy,
            zeta,
            px,
            pz,
            lambda,
            log_n,
        ),
{
    let pv = deep_ro_publics(alpha, sx, sy, zeta, px, pz, lambda, log_n);
    let at = projective_point(zeta);
    let e = deep_ro_elements(alpha, sx, sy, zeta, px, pz, lambda);
    let out = deep_ro_out(alpha, sx, sy, zeta, px, pz, lambda, log_n);
    let head = seq![sx, sy];
    let first = seq![at.0, at.1, alpha];
    let vn = seq![v_n(sx, log_n)];
    let tail = px + exts(e) + vn + exts(seq![out]);
    assert(pv =~= head + exts(first) + tail);
    lemma_limbs_inside(head, first, tail, 0);
    lemma_limbs_inside(head, first, tail, 1);
    lemma_limbs_inside(head, first, tail, 2);
    let before = head + exts(first) + px;
    let after = vn + exts(seq![out]);
    assert(pv =~= before + exts(e) + after);
    assert(before.len() == 14);
    assert forall|k: int| 0 <= k < 12 implies #[trigger] limbs_at(pv, 14 + 3 * k) == e[k] by {
        lemma_limbs_inside(before, e, after, k);
    }
    let most = before + exts(e) + vn;
    assert(pv =~= most + exts(seq![out]) + Seq::<int>::empty());
    assert(most.len() == 51);
    lemma_limbs_inside(most, seq![out], Seq::<int>::empty(), 0);
    assert(pv.subrange(11, 14) =~= px);
}

/// Twelve elements from offset 14 on.
proof fn lemma_twelve_elements(pv: Seq<int>, e: Seq<Ext>)
    requires
        forall|k: int| 0 <= k < 12 ==> #[trigger] limbs_at(pv, 14 + 3 * k) == e[k],
    ensures
        limbs_at(pv, 14) == e[0] && limbs_at(pv, 17) == e[1] && limbs_at(pv, 20) == e[2],
        limbs_at(pv, 23) == e[3] && limbs_at(pv, 26) == e[4] && limbs_at(pv, 29) == e[5],
        limbs_at(pv, 32) == e[6] && limbs_at(pv, 35) == e[7] && limbs_at(pv, 38) == e[8],
        limbs_at(pv, 41) == e[9] && limbs_at(pv, 44) == e[10] && limbs_at(pv, 47) == e[11],
{
    assert(limbs_at(pv, 14 + 3 * 0int) == e[0]);
    assert(limbs_at(pv, 14 + 3 * 1int) == e[1]);
    assert(limbs_at(pv, 14 + 3 * 2int) == e[2]);
    assert(limbs_at(pv, 14 + 3 * 3int) == e[3]);
    assert(limbs_at(pv, 14 + 3 * 4int) == e[4]);
    assert(limbs_at(pv, 14 + 3 * 5int) == e[5]);
    assert(limbs_at(pv, 14 + 3 * 6int) == e[6]);
    assert(limbs_at(pv, 14 + 3 * 7int) == e[7]);
    assert(limbs_at(pv, 14 + 3 * 8int) == e[8]);
    assert(limbs_at(pv, 14 + 3 * 9int) == e[9]);
    assert(limbs_at(pv, 14 + 3 * 10int) == e[10]);
    assert(limbs_at(pv, 14 + 3 * 11int) == e[11]);
}

/// The vanishing parts, the numerator and the denominator meet their constraints.
proof fn lemma_vanishing_satisfied(sx: int, sy: int, at: (Ext, Ext), alpha3: Ext)
    ensures
        ({
            let (re, im) = vanishing_parts(sx, sy, at);
            all_zero(
                vanishing_constraints(
                    sx,
                    sy,
                    at,
                    alpha3,
                    re,
                    im,
                    esub(re, emul(alpha3, im)),
                    vanishing_norm(sx, sy, at),
                ),
            )
        }),
{
    let (re, im) = vanishing_parts(sx, sy, at);
    let numer = esub(re, emul(alpha3, im));
    let denom = vanishing_norm(sx, sy, at);
    let t1 = limb_differences(re, re);
    let t2 = limb_differences(im, im);
    let t3 = limb_differences(numer, numer);
    let t4 = limb_differences(denom, denom);
    lemma_same_differences(re);
    lemma_same_differences(im);
    lemma_same_differences(numer);
    lemma_same_differences(denom);
    assert(vanishing_constraints(sx, sy, at, alpha3, re, im, numer, denom) == t1 + t2 + t3 + t4);
    lemma_all_zero_concat(t1 + t2 + t3, t4);
    lemma_all_zero_concat(t1 + t2, t3);
    lemma_all_zero_concat(t1, t2);
}

/// A reduction times the norm is the numerator times the combined differences.
proof fn lemma_reduced_product(
    alpha: Ext,
    sx: int,
    sy: int,
    zeta: Ext,
    px: Seq<int>,
    pz: Seq<Ext>,
    i: Ext,
)
    requires
        px.len() == 3,
        pz.len() == 3,
        ecanonical(i),
        emul(vanishing_norm(sx, sy, projective_point(zeta)), i) == eone(),
    ensures
        ({
            let at = projective_point(zeta);
            let (re, im) = vanishing_parts(sx, sy, at);
            emul(deep_reduced(alpha, sx, sy, zeta, px, pz), vanishing_norm(sx, sy, at)) == emul(
                esub(re, emul(epow(alpha, 3), im)),
                deep_linear(alpha, px, pz, 3),
            )
        }),
{
    let at = projective_point(zeta);
    let (re, im) = vanishing_parts(sx, sy, at);
    let numer = esub(re, emul(epow(alpha, 3), im));
    let denom = vanishing_norm(sx, sy, at);
    let linear = deep_linear(alpha, px, pz, 3);
    let reduced = deep_reduced(alpha, sx, sy, zeta, px, pz);
    lemma_emul_canonical(emul(numer, einv(denom)), linear);
    lemma_divided(reduced, denom, numer, linear, i);
}

/// Six blocks of zeros are zeros.
proof fn lemma_six_blocks(
    s1: Seq<int>,
    s2: Seq<int>,
    s3: Seq<int>,
    s4: Seq<int>,
    s5: Seq<int>,
    s6: Seq<int>,
)
    requires
        all_zero(s1),
        all_zero(s2),
        all_zero(s3),
        all_zero(s4),
        all_zero(s5),
        all_zero(s6),
    ensures
        all_zero(s1 + s2 + s3 + s4 + s5 + s6),
{
    lemma_all_zero_concat(s1, s2);
    lemma_all_zero_concat(s1 + s2, s3);
    lemma_all_zero_concat(s1 + s2 + s3, s4);
    lemma_all_zero_concat(s1 + s2 + s3 + s4, s5);
    lemma_all_zero_concat(s1 + s2 + s3 + s4 + s5, s6);
}

/// Values that state a reduction satisfy the system.
proof fn lemma_reduction_satisfies(
    pv: Seq<int>,
    alpha: Ext,
    sx: int,
    sy: int,
    zeta: Ext,
    px: Seq<int>,
    pz: Seq<Ext>,
    lambda: Ext,
    log_n: nat,
    i: Ext,
)
    requires
        states_reduction(pv, alpha, sx, sy, zeta, px, pz, lambda, log_n),
        px.len() == 3,
        pz.len() == 3,
        ecanonical(alpha),
        ecanonical(i),
        emul(vanishing_norm(sx, sy, projective_point(zeta)), i) == eone(),
    ensures
        all_zero(DeepRoAir.public_constraints(pv)),
{
    let at = projective_point(zeta);
    let (re, im) = vanishing_parts(sx, sy, at);
    let alpha2 = epow(alpha, 2);
    let alpha3 = epow(alpha, 3);
    let numer = esub(re, emul(alpha3, im));
    let denom = vanishing_norm(sx, sy, at);
    let linear = deep_linear(alpha, px, pz, 3);
    let reduced = deep_reduced(alpha, sx, sy, zeta, px, pz);
    let out = deep_ro_out(alpha, sx, sy, zeta, px, pz, lambda, log_n);
    let s1 = limb_differences(alpha2, alpha2);
    let s2 = limb_differences(alpha3, alpha3);
    let s3 = vanishing_constraints(sx, sy, at, alpha3, re, im, numer, denom);
    let s4 = limb_differences(linear, linear);
    let s5 = limb_differences(emul(numer, linear), emul(numer, linear));
    let s6 = limb_differences(out, out);
    assert(DeepRoAir.public_constraints(pv) == s1 + s2 + s3 + s4 + s5 + s6) by {
        let e = deep_ro_elements(alpha, sx, sy, zeta, px, pz, lambda);
        lemma_twelve_elements(pv, e);
        assert(seq![e[0], e[1], e[2]] =~= pz);
        lemma_epow_small(alpha);
        lemma_linear3(alpha, px, pz);
        lemma_reduced_product(alpha, sx, sy, zeta, px, pz, i);
        lemma_escale_is_emul(lambda, v_n(sx, log_n));
        assert(esub(reduced, escale(lambda, v_n(sx, log_n))) == out);
    }
    lemma_same_differences(alpha2);
    lemma_same_differences(alpha3);
    lemma_vanishing_satisfied(sx, sy, at, alpha3);
    lemma_same_differences(linear);
    lemma_same_differences(emul(numer, linear));
    lemma_same_differences(out);
    lemma_six_blocks(s1, s2, s3, s4, s5, s6);
}

/// The publics of a reduction satisfy the system.
pub proof fn lemma_deep_ro_publics_satisfy(
    alpha: Ext,
    sx: int,
    sy: int,
    zeta: Ext,
    px: Seq<int>,
    pz: Seq<Ext>,
    lambda: Ext,
    log_n: nat,
    i: Ext,
)
    requires
        px.len() == 3,
        pz.len() == 3,
        ecanonical(alpha),
        ecanonical(i),
        emul(vanishing_norm(sx, sy, projective_point(zeta)), i) == eone(),
    ensures
        all_zero(
            DeepRoAir.public_constraints(
                deep_ro_publics(alpha, sx, sy, zeta, px, pz, lambda, log_n),
            ),
        ),
{
    let pv = deep_ro_publics(alpha, sx, sy, zeta, px, pz, lambda, log_n);
    lemma_deep_ro_layout(alpha, sx, sy, zeta, px, pz, lambda, log_n);
    lemma_reduction_satisfies(pv, alpha, sx, sy, zeta, px, pz, lambda, log_n, i);
}

/// An element does not differ from itself.
pub proof fn lemma_same_differences(a: Ext)
    ensures
        all_zero(limb_differences(a, a)),
{
}

/// The publics of a reduction and its result, unless it would divide by zero.
pub fn build_public_values(
    sx: Val,
    sy: Val,
    alpha: Challenge,
    px: [Val; 3],
    pz: [Challenge; 3],
    lambda: Challenge,
    log_n: usize,
    zeta: Challenge,
) -> (r: Option<(Vec<Val>, Challenge, Val)>)
    ensures
        r is Some <==> deep_defined(sx@, sy@, zeta@),
        r matches Some(p) ==> {
            &&& vals(p.0@) == deep_ro_publics(
                alpha@,
                sx@,
                sy@,
                zeta@,
                vals(px@),
                evals_of(pz@),
                lambda@,
                log_n as nat,
            )
            &&& p.1@ == deep_ro_out(
                alpha@,
                sx@,
                sy@,
                zeta@,
                vals(px@),
                evals_of(pz@),
                lambda@,
                log_n as nat,
            )
            &&& p.2@ == v_n(sx@, log_n as nat)
        },
{
    let w = match try_deep_ro_w3_witness(alpha, sx, sy, zeta, px, pz, lambda, log_n) {
        Some(w) => w,
        None => {
            return None;
        },
    };
    let mut pv: Vec<Val> = Vec::new();
    push_val(&mut pv, sx);
    push_val(&mut pv, sy);
    proof {
        assert(vals(pv@) =~= seq![sx@, sy@]);
    }
    let first: [Challenge; 3] = [w.at_x, w.at_y, alpha];
    push_challenges(&mut pv, vstd::array::array_as_slice(&first));
    push_vals(&mut pv, vstd::array::array_as_slice(&px));
    let second: [Challenge; 12] = [
        pz[0],
        pz[1],
        pz[2],
        w.alpha2,
        w.alpha3,
        w.re,
        w.im,
        w.numer,
        w.denom,
        w.linear,
        w.out_pre,
        lambda,
    ];
    push_challenges(&mut pv, vstd::array::array_as_slice(&second));
    push_val(&mut pv, w.v_n);
    let last: [Challenge; 1] = [w.out];
    push_challenges(&mut pv, vstd::array::array_as_slice(&last));
    proof {
        let at = projective_point(zeta@);
        assert(evals_of(first@) =~= seq![at.0, at.1, alpha@]);
        assert(evals_of(second@) =~= deep_ro_elements(
            alpha@,
            sx@,
            sy@,
            zeta@,
            vals(px@),
            evals_of(pz@),
            lambda@,
        ));
        assert(evals_of(last@) =~= seq![w.out@]);
        assert(vals(pv@) =~= deep_ro_publics(
            alpha@,
            sx@,
            sy@,
            zeta@,
            vals(px@),
            evals_of(pz@),
            lambda@,
            log_n as nat,
        ));
    }
    Some((pv, w.out, w.v_n))
}

/// A width-three reduction with its proof bytes.
#[derive(Debug, Clone, PartialEq, Eq)]
pub struct DeepRoStepProof {
    pub sx: Val,
    pub sy: Val,
    pub alpha_limbs: [Val; 3],
    pub px: [Val; 3],
    pub pz_limbs: [[Val; 3]; 3],
    pub lambda_limbs: [Val; 3],
    pub v_n: Val,
    pub out_limbs: [Val; 3],
    /// The logarithm of the domain size; the system does not constrain it.
    pub log_n: u32,
    /// The evaluation point; the system constrains its circle point only.
    pub zeta_limbs: [Val; 3],
    pub deep_stark: Vec<u8>,
}

impl DeepRoStepProof {
    pub open spec fn alpha(self) -> Ext {
        limb_ext(self.alpha_limbs@)
    }

    pub open spec fn zeta(self) -> Ext {
        limb_ext(self.zeta_limbs@)
    }

    pub open spec fn lambda(self) -> Ext {
        limb_ext(self.lambda_limbs@)
    }

    pub open spec fn out(self) -> Ext {
        limb_ext(self.out_limbs@)
    }

    pub open spec fn pz(self) -> Seq<Ext> {
        seq![
            limb_ext(self.pz_limbs@[0]@),
            limb_ext(self.pz_limbs@[1]@),
            limb_ext(self.pz_limbs@[2]@),
        ]
    }

    /// The publics the step stands for.
    pub open spec fn publics(self) -> Seq<int> {
        deep_ro_publics(
            self.alpha(),
            self.sx@,
            self.sy@,
            self.zeta(),
            vals(self.px@),
            self.pz(),
            self.lambda(),
            self.log_n as nat,
        )
    }

    /// The step states a reduction.
    pub open spec fn holds(self) -> bool {
        &&& deep_defined(self.sx@, self.sy@, self.zeta())
        &&& self.v_n@ == v_n(self.sx@, self.log_n as nat)
        &&& self.out() == deep_ro_out(
            self.alpha(),
            self.sx@,
            self.sy@,
            self.zeta(),
            vals(self.px@),
            self.pz(),
            self.lambda(),
            self.log_n as nat,
        )
    }
}

/// Why a reduction was not proven.
#[derive(Debug, Clone, PartialEq, Eq)]
pub enum DeepRoProofError {
    LogNOutOfRange,
    /// The reduction would divide by zero.
    Pole,
    /// The proof system reported an error.
    Backend(String),
}

/// The trace of the reduction systems.
pub open spec fn deep_trace() -> spec_fn(RowMajorMatrix) -> bool {
    |m: RowMajorMatrix| is_flag_trace(m, 2)
}

/// The outcome of proving a reduction with `prover`.
pub open spec fn deep_ro_prove_outcome<
    F: Fn(&DeepRoAir, &RowMajorMatrix, &[Val]) -> Result<Vec<u8>, String>,
>(
    prover: F,
    sx: int,
    sy: int,
    alpha: Ext,
    px: Seq<int>,
    pz: Seq<Ext>,
    lambda: Ext,
    log_n: int,
    zeta: Ext,
    r: Result<DeepRoStepProof, DeepRoProofError>,
) -> bool {
    let pv = deep_ro_publics(alpha, sx, sy, zeta, px, pz, lambda, log_n as nat);
    if log_n == 0 || log_n > DEEP_RO_MAX_LOG_N {
        r == Err::<DeepRoStepProof, DeepRoProofError>(DeepRoProofError::LogNOutOfRange)
    } else if !deep_defined(sx, sy, zeta) {
        r == Err::<DeepRoStepProof, DeepRoProofError>(DeepRoProofError::Pole)
    } else {
        match r {
            Ok(s) => {
                &&& s.sx@ == sx && s.sy@ == sy && s.alpha() == alpha && vals(s.px@) == px
                &&& s.pz() == pz && s.lambda() == lambda && s.log_n == log_n && s.zeta() == zeta
                &&& s.holds()
                &&& prover_reply(prover, DeepRoAir, deep_trace(), pv, Ok(s.deep_stark))
            },
            Err(e) => e matches DeepRoProofError::Backend(text) && prover_reply(
                prover,
                DeepRoAir,
                deep_trace(),
                pv,
                Err(text),
            ),
        }
    }
}

/// Proves a width-three reduction.
pub fn generate_deep_ro_proof<
    F: Fn(&DeepRoAir, &RowMajorMatrix, &[Val]) -> Result<Vec<u8>, String>,
>(
    sx: Val,
    sy: Val,
    alpha: Challenge,
    px: [Val; 3],
    pz: [Challenge; 3],
    lambda: Challenge,
    log_n: usize,
    zeta: Challenge,
    prover: &F,
) -> (r: Result<DeepRoStepProof, DeepRoProofError>)
    requires
        prover_ready::<DeepRoAir, F>(*prover),
    ensures
        deep_ro_prove_outcome(
            *prover,
            sx@,
            sy@,
            alpha@,
            vals(px@),
            evals_of(pz@),
            lambda@,
            log_n as int,
            zeta@,
            r,
        ),
{
    if log_n == 0 || log_n > DEEP_RO_MAX_LOG_N {
        return Err(DeepRoProofError::LogNOutOfRange);
    }
    let (pv, out, vn) = match build_public_values(sx, sy, alpha, px, pz, lambda, log_n, zeta) {
        Some(p) => p,
        None => {
            return Err(DeepRoProofError::Pole);
        },
    };
    let matrix = flag_matrix(2);
    let air = DeepRoAir;
    match ask_prover(prover, &air, &matrix, &pv, Ghost(deep_trace())) {
        Ok(deep_stark) => {
            let s = DeepRoStepProof {
                sx,
                sy,
                alpha_limbs: challenge_to_limbs(alpha),
                px,
                pz_limbs: [
                    challenge_to_limbs(pz[0]),
                    challenge_to_limbs(pz[1]),
                    challenge_to_limbs(pz[2]),
                ],
                lambda_limbs: challenge_to_limbs(lambda),
                v_n: vn,
                out_limbs: challenge_to_limbs(out),
                log_n: log_n as u32,
                zeta_limbs: challenge_to_limbs(zeta),
                deep_stark,
            };
            proof {
                assert(s.pz() =~= evals_of(pz@));
            }
            Ok(s)
        },
        Err(e) => Err(DeepRoProofError::Backend(e)),
    }
}

/// The verdict on a reduction: false where it does not hold, else the verifier's verdict on
/// its proof bytes.
pub open spec fn deep_ro_verify_outcome<V: Fn(&DeepRoAir, &[Val], &[u8]) -> bool>(
    verifier: V,
    s: DeepRoStepProof,
    r: bool,
) -> bool {
    if s.holds() {
        verifier_verdict(verifier, DeepRoAir, s.publics(), s.deep_stark@, r)
    } else {
        !r
    }
}

/// Checks a width-three reduction. One that divides by zero is not valid.
pub fn verify_deep_ro_proof<V: Fn(&DeepRoAir, &[Val], &[u8]) -> bool>(
    proof: &DeepRoStepProof,
    verifier: &V,
) -> (r: bool)
    requires
        verifier_ready::<DeepRoAir, V>(*verifier),
    ensures
        deep_ro_verify_outcome(*verifier, *proof, r),
{
    let alpha = limbs_to_challenge(proof.alpha_limbs);
    let pz: [Challenge; 3] = [
        limbs_to_challenge(proof.pz_limbs[0]),
        limbs_to_challenge(proof.pz_limbs[1]),
        limbs_to_challenge(proof.pz_limbs[2]),
    ];
    proof {
        assert(proof.pz() =~= evals_of(pz@));
    }
    let lambda = limbs_to_challenge(proof.lambda_limbs);
    let zeta = limbs_to_challenge(proof.zeta_limbs);
    let out = limbs_to_challenge(proof.out_limbs);
    let (pv, expect_out, vn) = match build_public_values(
        proof.sx,
        proof.sy,
        alpha,
        proof.px,
        pz,
        lambda,
        proof.log_n as usize,
        zeta,
    ) {
        Some(p) => p,
        None => {
            return false;
        },
    };
    if !out.same(&expect_out) {
        return false;
    }
    if !proof.v_n.same(&vn) {
        return false;
    }
    let air = DeepRoAir;
    ask_verifier(verifier, &air, &pv, &proof.deep_stark)
}

} // verus!
