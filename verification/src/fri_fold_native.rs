//! The arity-two folds of circle FRI.
//!
//! With `t` the inverse of a twiddle, `fold = ((v0 + v1) + beta (v0 - v1) t) / 2`. The first
//! fold takes its twiddle from the ordinate of a domain point, every later one from the
//! abscissa.
use vstd::prelude::*;

use crate::circle::{x_twiddle, x_twiddle_point, y_twiddle, y_twiddle_point};
use crate::ext::{
    eadd, ebase, ecanonical, edouble, ehalve, emul, eone, esub, ezero, lemma_challenge_canonical,
    Challenge, Ext,
};
use crate::ext_ring::{
    einv, finv, lemma_add_back, lemma_einv, lemma_emul_assoc, lemma_emul_canonical, lemma_emul_comm,
    lemma_emul_dist, lemma_emul_one, lemma_emul_sub, lemma_finv, lemma_halve_double,
    lemma_take_away,
};
use crate::field::{canonical, fmul, lemma_val_canonical, Val, P};

verus! {

/// The inverse twiddle of the abscissa fold at `index`.
pub open spec fn x_twiddle_inv(index: int, log_folded_height: nat) -> int {
    finv(x_twiddle_point(index, log_folded_height).0)
}

/// The inverse twiddle of the ordinate fold at `index`.
pub open spec fn y_twiddle_inv(index: int, log_folded_height: nat) -> int {
    finv(y_twiddle_point(index, log_folded_height).1)
}

/// Two values folded with inverse twiddle `t` and challenge `beta`.
pub open spec fn fold_pair(t: int, beta: Ext, v0: Ext, v1: Ext) -> Ext {
    ehalve(eadd(eadd(v0, v1), emul(beta, emul(esub(v0, v1), ebase(t)))))
}

/// The coefficient of the first value in twice the fold.
pub open spec fn fold_coeff_v0(t: int, beta: Ext) -> Ext {
    eadd(eone(), emul(beta, ebase(t)))
}

/// The coefficient of the second value in twice the fold.
pub open spec fn fold_coeff_v1(t: int, beta: Ext) -> Ext {
    esub(eone(), emul(beta, ebase(t)))
}

/// The first value that folds with `v1` to `out`.
pub open spec fn solved_v0(t: int, beta: Ext, v1: Ext, out: Ext) -> Ext {
    emul(esub(edouble(out), emul(v1, fold_coeff_v1(t, beta))), einv(fold_coeff_v0(t, beta)))
}

/// The second value that folds with `v0` to `out`.
pub open spec fn solved_v1(t: int, beta: Ext, v0: Ext, out: Ext) -> Ext {
    emul(esub(edouble(out), emul(v0, fold_coeff_v0(t, beta))), einv(fold_coeff_v1(t, beta)))
}

/// The indices the abscissa fold is defined on.
pub open spec fn x_fold_ok(index: int, log_folded_height: int) -> bool {
    0 <= log_folded_height <= 28 && (log_folded_height > 0 || index == 0)
}

/// The heights the ordinate fold is defined on.
pub open spec fn y_fold_ok(log_folded_height: int) -> bool {
    0 <= log_folded_height <= 29
}

/// The inverse twiddle of the abscissa fold. The ordinate fold at the same position has another.
pub fn fold_x_twiddle_inv(index: usize, log_folded_height: usize) -> (r: Val)
    requires
        x_fold_ok(index as int, log_folded_height as int),
    ensures
        r@ == x_twiddle_inv(index as int, log_folded_height as nat),
        fmul(x_twiddle_point(index as int, log_folded_height as nat).0, r@) == 1,
        r@ != y_twiddle_inv(index as int, log_folded_height as nat),
{
    let x = x_twiddle(index, log_folded_height);
    let t = invert_nonzero(x);
    proof {
        lemma_val_canonical(x);
        let y = y_twiddle_point(index as int, log_folded_height as nat).1;
        if t@ == finv(y) {
            assert(fmul(y, t@) == 1);
            lemma_same_inverse(x@, y, t@);
        }
    }
    t
}

/// The inverse twiddle of the ordinate fold.
pub fn fold_y_twiddle_inv(index: usize, log_folded_height: usize) -> (r: Val)
    requires
        y_fold_ok(log_folded_height as int),
    ensures
        r@ == y_twiddle_inv(index as int, log_folded_height as nat),
        fmul(y_twiddle_point(index as int, log_folded_height as nat).1, r@) == 1,
{
    let y = y_twiddle(index, log_folded_height);
    invert_nonzero(y)
}

/// Residues with the same inverse are equal.
proof fn lemma_same_inverse(x: int, y: int, t: int)
    requires
        canonical(x),
        canonical(y),
        fmul(x, t) == 1,
        fmul(y, t) == 1,
    ensures
        x == y,
{
    assert(x * t == t * x) by (nonlinear_arith);
    assert(y * t == t * y) by (nonlinear_arith);
    lemma_finv(t, x);
    lemma_finv(t, y);
}

/// The inverse of a nonzero element.
fn invert_nonzero(x: Val) -> (r: Val)
    requires
        x@ != 0,
    ensures
        r@ == finv(x@),
        fmul(x@, r@) == 1,
{
    let i = x.try_inverse().unwrap();
    proof {
        lemma_val_canonical(i);
        lemma_finv(x@, i@);
    }
    i
}

/// Two values folded with inverse twiddle `t`.
pub fn fold_with_twiddle(t: Val, beta: Challenge, v0: Challenge, v1: Challenge) -> (r: Challenge)
    ensures
        r@ == fold_pair(t@, beta@, v0@, v1@),
{
    let t_ef = Challenge::from_base(t);
    let sum = v0.plus(&v1);
    let diff = v0.minus(&v1).times(&t_ef);
    sum.plus(&beta.times(&diff)).halve()
}

/// The abscissa fold.
pub fn fold_x_row(
    index: usize,
    log_folded_height: usize,
    beta: Challenge,
    v0: Challenge,
    v1: Challenge,
) -> (r: Challenge)
    requires
        x_fold_ok(index as int, log_folded_height as int),
    ensures
        r@ == fold_pair(x_twiddle_inv(index as int, log_folded_height as nat), beta@, v0@, v1@),
{
    fold_with_twiddle(fold_x_twiddle_inv(index, log_folded_height), beta, v0, v1)
}

/// The ordinate fold.
pub fn fold_y_row(
    index: usize,
    log_folded_height: usize,
    beta: Challenge,
    v0: Challenge,
    v1: Challenge,
) -> (r: Challenge)
    requires
        y_fold_ok(log_folded_height as int),
    ensures
        r@ == fold_pair(y_twiddle_inv(index as int, log_folded_height as nat), beta@, v0@, v1@),
{
    fold_with_twiddle(fold_y_twiddle_inv(index, log_folded_height), beta, v0, v1)
}

/// The three coefficients of a challenge.
pub fn challenge_to_limbs(c: Challenge) -> (r: [Val; 3])
    ensures
        r@ == seq![c.c0, c.c1, c.c2],
{
    [c.c0, c.c1, c.c2]
}

/// The challenge with the given coefficients.
pub fn limbs_to_challenge(limbs: [Val; 3]) -> (r: Challenge)
    ensures
        r.c0 == limbs@[0],
        r.c1 == limbs@[1],
        r.c2 == limbs@[2],
{
    Challenge::new(limbs)
}

/// The coefficients of twice the fold.
fn fold_coeffs(t: Val, beta: &Challenge) -> (r: (Challenge, Challenge))
    ensures
        r.0@ == fold_coeff_v0(t@, beta@),
        r.1@ == fold_coeff_v1(t@, beta@),
{
    let bt = beta.times(&Challenge::from_base(t));
    let one = Challenge::one();
    (one.plus(&bt), one.minus(&bt))
}

/// `(2 out - v other) / coeff`.
fn solve_with(
    coeff: &Challenge,
    other: &Challenge,
    v: &Challenge,
    out: &Challenge,
) -> (r: Option<Challenge>)
    ensures
        r is Some <==> coeff@ != ezero(),
        r matches Some(x) ==> x@ == emul(esub(edouble(out@), emul(v@, other@)), einv(coeff@)),
{
    match coeff.try_inverse() {
        Some(i) => {
            proof {
                lemma_challenge_canonical(i);
                lemma_einv(coeff@, i@);
            }
            Some(out.double().minus(&v.times(other)).times(&i))
        },
        None => None,
    }
}

/// The first value that folds with `v1` to `out`, unless its coefficient in the fold is zero.
pub fn try_solve_v0_for_fold(
    index: usize,
    log_folded_height: usize,
    beta: Challenge,
    v1: Challenge,
    out: Challenge,
) -> (r: Option<Challenge>)
    requires
        x_fold_ok(index as int, log_folded_height as int),
    ensures
        ({
            let t = x_twiddle_inv(index as int, log_folded_height as nat);
            &&& r is Some <==> fold_coeff_v0(t, beta@) != ezero()
            &&& r matches Some(v0) ==> v0@ == solved_v0(t, beta@, v1@, out@)
        }),
{
    let t = fold_x_twiddle_inv(index, log_folded_height);
    let (coeff_v0, coeff_v1) = fold_coeffs(t, &beta);
    solve_with(&coeff_v0, &coeff_v1, &v1, &out)
}

/// The second value that folds with `v0` to `out`, unless its coefficient in the fold is zero.
pub fn try_solve_v1_for_fold(
    index: usize,
    log_folded_height: usize,
    beta: Challenge,
    v0: Challenge,
    out: Challenge,
) -> (r: Option<Challenge>)
    requires
        x_fold_ok(index as int, log_folded_height as int),
    ensures
        ({
            let t = x_twiddle_inv(index as int, log_folded_height as nat);
            &&& r is Some <==> fold_coeff_v1(t, beta@) != ezero()
            &&& r matches Some(v1) ==> v1@ == solved_v1(t, beta@, v0@, out@)
        }),
{
    let t = fold_x_twiddle_inv(index, log_folded_height);
    let (coeff_v0, coeff_v1) = fold_coeffs(t, &beta);
    solve_with(&coeff_v1, &coeff_v0, &v0, &out)
}

/// The first value that folds with `v1` to `out`.
pub fn solve_v0_for_fold(
    index: usize,
    log_folded_height: usize,
    beta: Challenge,
    v1: Challenge,
    out: Challenge,
) -> (r: Challenge)
    requires
        x_fold_ok(index as int, log_folded_height as int),
        fold_coeff_v0(x_twiddle_inv(index as int, log_folded_height as nat), beta@) != ezero(),
    ensures
        r@ == solved_v0(x_twiddle_inv(index as int, log_folded_height as nat), beta@, v1@, out@),
{
    try_solve_v0_for_fold(index, log_folded_height, beta, v1, out).unwrap()
}

/// The second value that folds with `v0` to `out`.
pub fn solve_v1_for_fold(
    index: usize,
    log_folded_height: usize,
    beta: Challenge,
    v0: Challenge,
    out: Challenge,
) -> (r: Challenge)
    requires
        x_fold_ok(index as int, log_folded_height as int),
        fold_coeff_v1(x_twiddle_inv(index as int, log_folded_height as nat), beta@) != ezero(),
    ensures
        r@ == solved_v1(x_twiddle_inv(index as int, log_folded_height as nat), beta@, v0@, out@),
{
    try_solve_v1_for_fold(index, log_folded_height, beta, v0, out).unwrap()
}

/// Unpacking the limbs of a challenge gives the challenge back.
pub proof fn lemma_limbs_roundtrip(c: Challenge, limbs: Seq<Val>, r: Challenge)
    requires
        limbs == seq![c.c0, c.c1, c.c2],
        r.c0 == limbs[0],
        r.c1 == limbs[1],
        r.c2 == limbs[2],
    ensures
        r == c,
{
}

/// Twice the fold is `v0 (1 + beta t) + v1 (1 - beta t)`.
pub proof fn lemma_fold_doubled(t: int, beta: Ext, v0: Ext, v1: Ext)
    requires
        ecanonical(v0),
        ecanonical(v1),
    ensures
        edouble(fold_pair(t, beta, v0, v1)) == eadd(
            emul(v0, fold_coeff_v0(t, beta)),
            emul(v1, fold_coeff_v1(t, beta)),
        ),
{
    let tt = ebase(t);
    let k = emul(beta, tt);
    let d = esub(v0, v1);
    lemma_halve_double(eadd(eadd(v0, v1), emul(beta, emul(d, tt))));
    // beta (d t) = d k
    lemma_emul_comm(d, tt);
    lemma_emul_assoc(beta, tt, d);
    lemma_emul_comm(k, d);
    // d k = v0 k - v1 k
    lemma_emul_sub(k, v0, v1);
    lemma_emul_dist(v0, eone(), k);
    lemma_emul_one(v0);
    lemma_emul_sub(v1, eone(), k);
    lemma_emul_one(v1);
    lemma_emul_canonical(v0, k);
    lemma_emul_canonical(v1, k);
    lemma_regroup(v0, v1, emul(v0, k), emul(v1, k));
}

/// `(a + b) + (x - y) = (a + x) + (b - y)`.
proof fn lemma_regroup(a: Ext, b: Ext, x: Ext, y: Ext)
    ensures
        eadd(eadd(a, b), esub(x, y)) == eadd(eadd(a, x), esub(b, y)),
{
    lemma_regroup_residue(a.c0, b.c0, x.c0, y.c0);
    lemma_regroup_residue(a.c1, b.c1, x.c1, y.c1);
    lemma_regroup_residue(a.c2, b.c2, x.c2, y.c2);
}

proof fn lemma_regroup_residue(a: int, b: int, x: int, y: int)
    ensures
        ((a + b) % (P as int) + (x - y) % (P as int)) % (P as int) == ((a + x) % (P as int) + (b
            - y) % (P as int)) % (P as int),
{
    vstd::arithmetic::div_mod::lemma_add_mod_noop(a + b, x - y, P as int);
    vstd::arithmetic::div_mod::lemma_add_mod_noop(a + x, b - y, P as int);
}

/// A coefficient and its inverse cancel.
proof fn lemma_cancel(v: Ext, c: Ext, i: Ext)
    requires
        ecanonical(v),
        emul(c, i) == eone(),
    ensures
        emul(emul(v, c), i) == v,
        emul(emul(v, i), c) == v,
{
    lemma_emul_assoc(v, c, i);
    lemma_emul_assoc(v, i, c);
    lemma_emul_comm(i, c);
    lemma_emul_one(v);
}

/// Solving a fold for its first value recovers that value, and what is solved folds back:
/// for an invertible coefficient the two are inverse to each other.
pub proof fn lemma_solve_v0_inverts(t: int, beta: Ext, v0: Ext, v1: Ext, out: Ext, i: Ext)
    requires
        ecanonical(v0),
        ecanonical(v1),
        ecanonical(out),
        ecanonical(i),
        emul(fold_coeff_v0(t, beta), i) == eone(),
    ensures
        solved_v0(t, beta, v1, fold_pair(t, beta, v0, v1)) == v0,
        fold_pair(t, beta, solved_v0(t, beta, v1, out), v1) == out,
{
    let c0 = fold_coeff_v0(t, beta);
    let c1 = fold_coeff_v1(t, beta);
    lemma_einv(c0, i);
    lemma_fold_doubled(t, beta, v0, v1);
    lemma_emul_canonical(v0, c0);
    lemma_take_away(emul(v0, c0), emul(v1, c1));
    lemma_cancel(v0, c0, i);
    let n = esub(edouble(out), emul(v1, c1));
    let s = emul(n, i);
    lemma_emul_canonical(n, i);
    lemma_cancel(n, c0, i);
    lemma_fold_doubled(t, beta, s, v1);
    lemma_add_back(edouble(out), emul(v1, c1));
    lemma_same_double(fold_pair(t, beta, s, v1), out);
}

/// Solving a fold for its second value recovers that value, and what is solved folds back.
pub proof fn lemma_solve_v1_inverts(t: int, beta: Ext, v0: Ext, v1: Ext, out: Ext, i: Ext)
    requires
        ecanonical(v0),
        ecanonical(v1),
        ecanonical(out),
        ecanonical(i),
        emul(fold_coeff_v1(t, beta), i) == eone(),
    ensures
        solved_v1(t, beta, v0, fold_pair(t, beta, v0, v1)) == v1,
        fold_pair(t, beta, v0, solved_v1(t, beta, v0, out)) == out,
{
    let c0 = fold_coeff_v0(t, beta);
    let c1 = fold_coeff_v1(t, beta);
    lemma_einv(c1, i);
    lemma_fold_doubled(t, beta, v0, v1);
    lemma_emul_canonical(v1, c1);
    lemma_take_away(emul(v1, c1), emul(v0, c0));
    lemma_cancel(v1, c1, i);
    let n = esub(edouble(out), emul(v0, c0));
    let s = emul(n, i);
    lemma_emul_canonical(n, i);
    lemma_cancel(n, c1, i);
    lemma_fold_doubled(t, beta, v0, s);
    lemma_add_back(edouble(out), emul(v0, c0));
    lemma_same_double(fold_pair(t, beta, v0, s), out);
}

/// Elements with the same double are equal.
proof fn lemma_same_double(a: Ext, b: Ext)
    requires
        ecanonical(a),
        ecanonical(b),
        edouble(a) == edouble(b),
    ensures
        a == b,
{
    lemma_halve_double(a);
    lemma_halve_double(b);
}

} // verus!
