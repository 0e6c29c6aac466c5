//! Ring laws of the challenge field.
use vstd::arithmetic::div_mod::{lemma_add_mod_noop, lemma_mul_mod_noop_left, lemma_mul_mod_noop_right};
use vstd::prelude::*;

use crate::ext::{
    eadd, ebase, ecanonical, edouble, ehalve, emul, eone, ereduce, escale, esub, imul, Ext,
};
use crate::field::{canonical, fmul, P};

verus! {

/// Coefficientwise sum of integers.
pub open spec fn iadd(a: Ext, b: Ext) -> Ext {
    Ext { c0: a.c0 + b.c0, c1: a.c1 + b.c1, c2: a.c2 + b.c2 }
}

pub proof fn lemma_imul_comm(a: Ext, b: Ext)
    ensures
        imul(a, b) == imul(b, a),
{
    assert(a.c0 * b.c0 == b.c0 * a.c0) by (nonlinear_arith);
    assert(a.c0 * b.c1 == b.c1 * a.c0) by (nonlinear_arith);
    assert(a.c0 * b.c2 == b.c2 * a.c0) by (nonlinear_arith);
    assert(a.c1 * b.c0 == b.c0 * a.c1) by (nonlinear_arith);
    assert(a.c1 * b.c1 == b.c1 * a.c1) by (nonlinear_arith);
    assert(a.c1 * b.c2 == b.c2 * a.c1) by (nonlinear_arith);
    assert(a.c2 * b.c0 == b.c0 * a.c2) by (nonlinear_arith);
    assert(a.c2 * b.c1 == b.c1 * a.c2) by (nonlinear_arith);
    assert(a.c2 * b.c2 == b.c2 * a.c2) by (nonlinear_arith);
}

proof fn lemma_dist(x: int, y: int, z: int)
    ensures
        x * (y + z) == x * y + x * z,
        (y + z) * x == y * x + z * x,
{
    assert(x * (y + z) == x * y + x * z) by (nonlinear_arith);
    assert((y + z) * x == y * x + z * x) by (nonlinear_arith);
}

pub proof fn lemma_imul_dist(a: Ext, b: Ext, c: Ext)
    ensures
        imul(a, iadd(b, c)) == iadd(imul(a, b), imul(a, c)),
{
    lemma_dist(a.c0, b.c0, c.c0);
    lemma_dist(a.c0, b.c1, c.c1);
    lemma_dist(a.c0, b.c2, c.c2);
    lemma_dist(a.c1, b.c0, c.c0);
    lemma_dist(a.c1, b.c1, c.c1);
    lemma_dist(a.c1, b.c2, c.c2);
    lemma_dist(a.c2, b.c0, c.c0);
    lemma_dist(a.c2, b.c1, c.c1);
    lemma_dist(a.c2, b.c2, c.c2);
}

/// `x (u + 5 (v + w))` multiplied out.
proof fn lemma_expand5(x: int, u: int, v: int, w: int)
    ensures
        x * (u + 5 * (v + w)) == x * u + 5 * (x * v) + 5 * (x * w),
        (u + 5 * (v + w)) * x == u * x + 5 * (v * x) + 5 * (w * x),
{
    assert(x * (u + 5 * (v + w)) == x * u + 5 * (x * v) + 5 * (x * w)) by (nonlinear_arith);
    assert((u + 5 * (v + w)) * x == u * x + 5 * (v * x) + 5 * (w * x)) by (nonlinear_arith);
}

/// `x (u + v + 5 w)` multiplied out.
proof fn lemma_expand3(x: int, u: int, v: int, w: int)
    ensures
        x * (u + v + 5 * w) == x * u + x * v + 5 * (x * w),
        (u + v + 5 * w) * x == u * x + v * x + 5 * (w * x),
        x * (u + v + w) == x * u + x * v + x * w,
        (u + v + w) * x == u * x + v * x + w * x,
{
    assert(x * (u + v + 5 * w) == x * u + x * v + 5 * (x * w)) by (nonlinear_arith);
    assert((u + v + 5 * w) * x == u * x + v * x + 5 * (w * x)) by (nonlinear_arith);
    assert(x * (u + v + w) == x * u + x * v + x * w) by (nonlinear_arith);
    assert((u + v + w) * x == u * x + v * x + w * x) by (nonlinear_arith);
}

proof fn lemma_assoc(x: int, y: int, z: int)
    ensures
        (x * y) * z == x * (y * z),
{
    assert((x * y) * z == x * (y * z)) by (nonlinear_arith);
}

pub proof fn lemma_imul_assoc(a: Ext, b: Ext, c: Ext)
    ensures
        imul(imul(a, b), c) == imul(a, imul(b, c)),
{
    lemma_expand5(c.c0, a.c0 * b.c0, a.c1 * b.c2, a.c2 * b.c1);
    lemma_expand5(c.c1, a.c0 * b.c0, a.c1 * b.c2, a.c2 * b.c1);
    lemma_expand5(c.c2, a.c0 * b.c0, a.c1 * b.c2, a.c2 * b.c1);
    lemma_expand3(c.c0, a.c0 * b.c1, a.c1 * b.c0, a.c2 * b.c2);
    lemma_expand3(c.c1, a.c0 * b.c1, a.c1 * b.c0, a.c2 * b.c2);
    lemma_expand3(c.c2, a.c0 * b.c1, a.c1 * b.c0, a.c2 * b.c2);
    lemma_expand3(c.c0, a.c0 * b.c2, a.c1 * b.c1, a.c2 * b.c0);
    lemma_expand3(c.c1, a.c0 * b.c2, a.c1 * b.c1, a.c2 * b.c0);
    lemma_expand3(c.c2, a.c0 * b.c2, a.c1 * b.c1, a.c2 * b.c0);
    lemma_expand5(a.c0, b.c0 * c.c0, b.c1 * c.c2, b.c2 * c.c1);
    lemma_expand5(a.c1, b.c0 * c.c0, b.c1 * c.c2, b.c2 * c.c1);
    lemma_expand5(a.c2, b.c0 * c.c0, b.c1 * c.c2, b.c2 * c.c1);
    lemma_expand3(a.c0, b.c0 * c.c1, b.c1 * c.c0, b.c2 * c.c2);
    lemma_expand3(a.c1, b.c0 * c.c1, b.c1 * c.c0, b.c2 * c.c2);
    lemma_expand3(a.c2, b.c0 * c.c1, b.c1 * c.c0, b.c2 * c.c2);
    lemma_expand3(a.c0, b.c0 * c.c2, b.c1 * c.c1, b.c2 * c.c0);
    lemma_expand3(a.c1, b.c0 * c.c2, b.c1 * c.c1, b.c2 * c.c0);
    lemma_expand3(a.c2, b.c0 * c.c2, b.c1 * c.c1, b.c2 * c.c0);
    lemma_assoc(a.c0, b.c0, c.c0);
    lemma_assoc(a.c0, b.c0, c.c1);
    lemma_assoc(a.c0, b.c0, c.c2);
    lemma_assoc(a.c0, b.c1, c.c0);
    lemma_assoc(a.c0, b.c1, c.c1);
    lemma_assoc(a.c0, b.c1, c.c2);
    lemma_assoc(a.c0, b.c2, c.c0);
    lemma_assoc(a.c0, b.c2, c.c1);
    lemma_assoc(a.c0, b.c2, c.c2);
    lemma_assoc(a.c1, b.c0, c.c0);
    lemma_assoc(a.c1, b.c0, c.c1);
    lemma_assoc(a.c1, b.c0, c.c2);
    lemma_assoc(a.c1, b.c1, c.c0);
    lemma_assoc(a.c1, b.c1, c.c1);
    lemma_assoc(a.c1, b.c1, c.c2);
    lemma_assoc(a.c1, b.c2, c.c0);
    lemma_assoc(a.c1, b.c2, c.c1);
    lemma_assoc(a.c1, b.c2, c.c2);
    lemma_assoc(a.c2, b.c0, c.c0);
    lemma_assoc(a.c2, b.c0, c.c1);
    lemma_assoc(a.c2, b.c0, c.c2);
    lemma_assoc(a.c2, b.c1, c.c0);
    lemma_assoc(a.c2, b.c1, c.c1);
    lemma_assoc(a.c2, b.c1, c.c2);
    lemma_assoc(a.c2, b.c2, c.c0);
    lemma_assoc(a.c2, b.c2, c.c1);
    lemma_assoc(a.c2, b.c2, c.c2);
}

proof fn lemma_sum5_residue(u: int, v: int, w: int, u2: int, v2: int, w2: int)
    requires
        u % (P as int) == u2 % (P as int),
        v % (P as int) == v2 % (P as int),
        w % (P as int) == w2 % (P as int),
    ensures
        (u + 5 * (v + w)) % (P as int) == (u2 + 5 * (v2 + w2)) % (P as int),
        (u + v + 5 * w) % (P as int) == (u2 + v2 + 5 * w2) % (P as int),
        (u + v + w) % (P as int) == (u2 + v2 + w2) % (P as int),
{
    lemma_sum5_normal(u, v, w);
    lemma_sum5_normal(u2, v2, w2);
}

/// The sums depend on the terms' residues only.
proof fn lemma_sum5_normal(u: int, v: int, w: int)
    ensures
        ({
            let p = P as int;
            let (a, b, c) = (u % p, v % p, w % p);
            &&& (u + 5 * (v + w)) % p == (a + (5 * ((b + c) % p)) % p) % p
            &&& (u + v + 5 * w) % p == ((a + b) % p + (5 * c) % p) % p
            &&& (u + v + w) % p == ((a + b) % p + c) % p
        }),
{
    let p: int = P as int;
    lemma_add_mod_noop(v, w, p);
    lemma_mul_mod_noop_right(5, v + w, p);
    lemma_add_mod_noop(u, 5 * (v + w), p);
    lemma_add_mod_noop(u, v, p);
    lemma_mul_mod_noop_right(5, w, p);
    lemma_add_mod_noop(u + v, 5 * w, p);
    lemma_add_mod_noop(u + v, w, p);
}

/// Reducing a factor first does not change the product.
pub proof fn lemma_reduce_left(a: Ext, b: Ext)
    ensures
        ereduce(imul(ereduce(a), b)) == ereduce(imul(a, b)),
        ereduce(imul(b, ereduce(a))) == ereduce(imul(b, a)),
{
    let p: int = P as int;
    let r = ereduce(a);
    lemma_mul_mod_noop_left(a.c0, b.c0, p);
    lemma_mul_mod_noop_left(a.c0, b.c1, p);
    lemma_mul_mod_noop_left(a.c0, b.c2, p);
    lemma_mul_mod_noop_left(a.c1, b.c0, p);
    lemma_mul_mod_noop_left(a.c1, b.c1, p);
    lemma_mul_mod_noop_left(a.c1, b.c2, p);
    lemma_mul_mod_noop_left(a.c2, b.c0, p);
    lemma_mul_mod_noop_left(a.c2, b.c1, p);
    lemma_mul_mod_noop_left(a.c2, b.c2, p);
    lemma_sum5_residue(
        r.c0 * b.c0,
        r.c1 * b.c2,
        r.c2 * b.c1,
        a.c0 * b.c0,
        a.c1 * b.c2,
        a.c2 * b.c1,
    );
    lemma_sum5_residue(
        r.c0 * b.c1,
        r.c1 * b.c0,
        r.c2 * b.c2,
        a.c0 * b.c1,
        a.c1 * b.c0,
        a.c2 * b.c2,
    );
    lemma_sum5_residue(
        r.c0 * b.c2,
        r.c1 * b.c1,
        r.c2 * b.c0,
        a.c0 * b.c2,
        a.c1 * b.c1,
        a.c2 * b.c0,
    );
    lemma_imul_comm(b, r);
    lemma_imul_comm(b, a);
}

/// Multiplication commutes.
pub proof fn lemma_emul_comm(a: Ext, b: Ext)
    ensures
        emul(a, b) == emul(b, a),
{
    reveal(emul);
    lemma_imul_comm(a, b);
}

/// Multiplication is associative.
pub proof fn lemma_emul_assoc(a: Ext, b: Ext, c: Ext)
    ensures
        emul(emul(a, b), c) == emul(a, emul(b, c)),
{
    reveal(emul);
    lemma_reduce_left(imul(a, b), c);
    lemma_imul_assoc(a, b, c);
    lemma_reduce_left(imul(b, c), a);
}

/// Multiplication distributes over addition.
pub proof fn lemma_emul_dist(a: Ext, b: Ext, c: Ext)
    ensures
        emul(a, eadd(b, c)) == eadd(emul(a, b), emul(a, c)),
        emul(eadd(b, c), a) == eadd(emul(b, a), emul(c, a)),
{
    reveal(emul);
    assert(eadd(b, c) == ereduce(iadd(b, c)));
    lemma_reduce_left(iadd(b, c), a);
    lemma_imul_dist(a, b, c);
    let x = imul(a, b);
    let y = imul(a, c);
    lemma_add_mod_noop(x.c0, y.c0, P as int);
    lemma_add_mod_noop(x.c1, y.c1, P as int);
    lemma_add_mod_noop(x.c2, y.c2, P as int);
    lemma_imul_comm(a, eadd(b, c));
    lemma_imul_comm(a, b);
    lemma_imul_comm(a, c);
}

/// One is neutral.
pub proof fn lemma_emul_one(a: Ext)
    requires
        ecanonical(a),
    ensures
        emul(a, eone()) == a,
        emul(eone(), a) == a,
{
    reveal(emul);
    lemma_imul_comm(a, eone());
    assert(imul(eone(), a) == a);
}

/// Products are canonical.
pub proof fn lemma_emul_canonical(a: Ext, b: Ext)
    ensures
        ecanonical(emul(a, b)),
{
    reveal(emul);
}

/// Scaling by a base element is multiplication with it.
pub proof fn lemma_escale_is_emul(a: Ext, s: int)
    ensures
        escale(a, s) == emul(a, ebase(s)),
{
    reveal(emul);
    let b = ebase(s);
    assert(a.c1 * b.c2 == 0 && a.c2 * b.c1 == 0 && a.c0 * b.c1 == 0 && a.c2 * b.c2 == 0 && a.c0
        * b.c2 == 0 && a.c1 * b.c1 == 0);
}

/// Twice the half of an element is the element, and half of its double too.
pub proof fn lemma_halve_double(a: Ext)
    requires
        ecanonical(a),
    ensures
        edouble(ehalve(a)) == a,
        ehalve(edouble(a)) == a,
{
    lemma_half_residue(a.c0);
    lemma_half_residue(a.c1);
    lemma_half_residue(a.c2);
}

proof fn lemma_half_residue(x: int)
    requires
        0 <= x < P,
    ensures
        ((x * 0x4000_0000) % (P as int) + (x * 0x4000_0000) % (P as int)) % (P as int) == x,
        (((x + x) % (P as int)) * 0x4000_0000) % (P as int) == x,
{
    let p: int = P as int;
    let h: int = x * 0x4000_0000;
    lemma_add_mod_noop(h, h, p);
    lemma_mul_mod_noop_left(x + x, 0x4000_0000, p);
    assert((x + x) * 0x4000_0000 == h + h);
    assert(h + h == x + p * x);
    vstd::arithmetic::div_mod::lemma_mod_multiples_vanish(x, x, p);
}

proof fn lemma_take_away_residue(x: int, y: int)
    requires
        0 <= x < P,
    ensures
        ((x + y) % (P as int) - y) % (P as int) == x,
        ((x - y) % (P as int) + y) % (P as int) == x,
        (y + (x - y) % (P as int)) % (P as int) == x,
{
}

/// `(a + b) - b = a`.
pub proof fn lemma_take_away(a: Ext, b: Ext)
    requires
        ecanonical(a),
    ensures
        esub(eadd(a, b), b) == a,
        esub(eadd(b, a), b) == a,
{
    lemma_take_away_residue(a.c0, b.c0);
    lemma_take_away_residue(a.c1, b.c1);
    lemma_take_away_residue(a.c2, b.c2);
}

/// `(a - b) + b = a`.
pub proof fn lemma_add_back(a: Ext, b: Ext)
    requires
        ecanonical(a),
    ensures
        eadd(esub(a, b), b) == a,
        eadd(b, esub(a, b)) == a,
{
    lemma_take_away_residue(a.c0, b.c0);
    lemma_take_away_residue(a.c1, b.c1);
    lemma_take_away_residue(a.c2, b.c2);
}

/// Multiplication distributes over subtraction.
pub proof fn lemma_emul_sub(a: Ext, b: Ext, c: Ext)
    requires
        ecanonical(b),
    ensures
        emul(a, esub(b, c)) == esub(emul(a, b), emul(a, c)),
        emul(esub(b, c), a) == esub(emul(b, a), emul(c, a)),
{
    let d = esub(b, c);
    lemma_add_back(b, c);
    lemma_emul_dist(a, d, c);
    lemma_emul_canonical(a, d);
    lemma_take_away(emul(a, d), emul(a, c));
    lemma_emul_comm(a, esub(b, c));
    lemma_emul_comm(a, b);
    lemma_emul_comm(a, c);
}

/// The residue inverse to `x`.
pub open spec fn finv(x: int) -> int {
    choose|i: int| canonical(i) && #[trigger] fmul(x, i) == 1
}

/// An inverse residue is the inverse residue.
pub proof fn lemma_finv(x: int, i: int)
    requires
        canonical(i),
        fmul(x, i) == 1,
    ensures
        finv(x) == i,
{
    let p: int = P as int;
    let j: int = finv(x);
    assert(canonical(j) && fmul(x, j) == 1);
    // i = i (x j) = (x i) j = j
    lemma_mul_mod_noop_right(i, x * j, p);
    lemma_mul_mod_noop_left(x * i, j, p);
    assert(i * (x * j) == (x * i) * j) by (nonlinear_arith);
    assert(i * 1 == i && 1 * j == j);
}

/// The element inverse to `a`.
pub open spec fn einv(a: Ext) -> Ext {
    choose|i: Ext| ecanonical(i) && #[trigger] emul(a, i) == eone()
}

/// An inverse element is the inverse element.
pub proof fn lemma_einv(a: Ext, i: Ext)
    requires
        ecanonical(i),
        emul(a, i) == eone(),
    ensures
        einv(a) == i,
{
    assert(ecanonical(einv(a)) && emul(a, einv(a)) == eone());
    lemma_inverse_unique(a, i, einv(a));
}

/// `b` and `b2` inverse to the same element are equal.
pub proof fn lemma_inverse_unique(a: Ext, b: Ext, b2: Ext)
    requires
        ecanonical(b),
        ecanonical(b2),
        emul(a, b) == eone(),
        emul(a, b2) == eone(),
    ensures
        b == b2,
{
    lemma_emul_one(b);
    lemma_emul_one(b2);
    lemma_emul_assoc(b, a, b2);
    lemma_emul_comm(b, a);
}

} // verus!
