//! Challenge-field arithmetic on triples of constraint expressions.
use vstd::arithmetic::div_mod::{
    lemma_add_mod_noop, lemma_mul_mod_noop_left, lemma_mul_mod_noop_right, lemma_sub_mod_noop,
};
use vstd::prelude::*;

use crate::constraint::{ConstraintSink, Expr};
use crate::ext::{eadd, ebase, ehalve, emul, escale, esquare, esub, Ext};
use crate::field::{fadd, fmul, fsub, P};

verus! {

/// The challenge-field element that three limbs stand for.
pub open spec fn limbs<E: Expr>(a: Seq<E>) -> Ext {
    Ext { c0: a[0].val(), c1: a[1].val(), c2: a[2].val() }
}

/// What three cells of a row stand for.
pub open spec fn limbs_at(row: Seq<int>, off: int) -> Ext {
    Ext { c0: row[off], c1: row[off + 1], c2: row[off + 2] }
}

/// The limbs found at an offset.
pub fn read_limbs<E: Expr>(row: &[E], off: usize) -> (r: [E; 3])
    requires
        off + 3 <= row@.len(),
    ensures
        limbs(r@) == limbs_at(crate::constraint::evals(row@), off as int),
{
    [row[off].dup(), row[off + 1].dup(), row[off + 2].dup()]
}

/// `s (b + c)`, with `s` and the sum reduced first.
proof fn lemma_karatsuba(a1: int, a2: int, b1: int, b2: int)
    ensures
        fsub(
            fsub(fmul(fadd(a1, a2), fadd(b1, b2)), fmul(a1, b1)),
            fmul(a2, b2),
        ) == (a1 * b2 + a2 * b1) % (P as int),
{
    let p: int = P as int;
    let s: int = a1 + a2;
    let t: int = b1 + b2;
    lemma_mul_mod_noop_left(s, t % p, p);
    lemma_mul_mod_noop_right(s, t, p);
    assert(s * t == a1 * b1 + a1 * b2 + a2 * b1 + a2 * b2) by (nonlinear_arith)
        requires
            s == a1 + a2,
            t == b1 + b2,
    ;
    lemma_sub_mod_noop(s * t, a1 * b1, p);
    lemma_sub_mod_noop(s * t - a1 * b1, a2 * b2, p);
}

/// The product of two elements.
pub fn ef_mul_limbs<E: Expr>(a: &[E; 3], b: &[E; 3]) -> (r: [E; 3])
    ensures
        limbs(r@) == emul(limbs(a@), limbs(b@)),
{
    let w = E::lit(5);
    let a0_b0 = a[0].times(&b[0]);
    let a1_b1 = a[1].times(&b[1]);
    let a2_b2 = a[2].times(&b[2]);
    let cross12 = a[1].plus(&a[2]).times(&b[1].plus(&b[2])).minus(&a1_b1).minus(&a2_b2);
    let cross01 = a[0].plus(&a[1]).times(&b[0].plus(&b[1])).minus(&a0_b0).minus(&a1_b1);
    let cross02 = a[0].plus(&a[2]).times(&b[0].plus(&b[2])).minus(&a0_b0).minus(&a2_b2);
    let c0 = a0_b0.plus(&cross12.times(&w));
    let c1 = cross01.plus(&a2_b2.times(&w));
    let c2 = cross02.plus(&a1_b1);
    proof {
        reveal(emul);
        let p: int = P as int;
        let (x, y) = (limbs(a@), limbs(b@));
        lemma_karatsuba(x.c1, x.c2, y.c1, y.c2);
        lemma_karatsuba(x.c0, x.c1, y.c0, y.c1);
        lemma_karatsuba(x.c0, x.c2, y.c0, y.c2);
        let m12: int = x.c1 * y.c2 + x.c2 * y.c1;
        lemma_mul_mod_noop_left(m12, 5, p);
        lemma_add_mod_noop(x.c0 * y.c0, m12 * 5, p);
        lemma_mul_mod_noop_left(x.c2 * y.c2, 5, p);
        lemma_add_mod_noop(x.c0 * y.c1 + x.c1 * y.c0, (x.c2 * y.c2) * 5, p);
        lemma_add_mod_noop(x.c0 * y.c2 + x.c2 * y.c0, x.c1 * y.c1, p);
    }
    [c0, c1, c2]
}

/// The sum of two elements.
pub fn ef_add_limbs<E: Expr>(a: &[E; 3], b: &[E; 3]) -> (r: [E; 3])
    ensures
        limbs(r@) == eadd(limbs(a@), limbs(b@)),
{
    [a[0].plus(&b[0]), a[1].plus(&b[1]), a[2].plus(&b[2])]
}

/// The difference of two elements.
pub fn ef_sub_limbs<E: Expr>(a: &[E; 3], b: &[E; 3]) -> (r: [E; 3])
    ensures
        limbs(r@) == esub(limbs(a@), limbs(b@)),
{
    [a[0].minus(&b[0]), a[1].minus(&b[1]), a[2].minus(&b[2])]
}

/// An element subtracted from a base expression.
pub fn ef_base_minus<E: Expr>(x: &E, a: &[E; 3]) -> (r: [E; 3])
    ensures
        limbs(r@) == esub(ebase(x.val()), limbs(a@)),
{
    let zero = E::lit(0);
    [x.minus(&a[0]), zero.minus(&a[1]), zero.minus(&a[2])]
}

/// Half of an element.
pub fn ef_halve_limbs<E: Expr>(a: &[E; 3]) -> (r: [E; 3])
    ensures
        limbs(r@) == ehalve(limbs(a@)),
{
    let inv2 = E::lit(0x4000_0000);
    ef_scale_by_base(a, &inv2)
}

/// The product of an element and a base expression.
pub fn ef_scale_by_base<E: Expr>(a: &[E; 3], s: &E) -> (r: [E; 3])
    ensures
        limbs(r@) == escale(limbs(a@), s.val()),
{
    [a[0].times(s), a[1].times(s), a[2].times(s)]
}

/// The square of an element.
pub fn ef_square_limbs<E: Expr>(a: &[E; 3]) -> (r: [E; 3])
    ensures
        limbs(r@) == esquare(limbs(a@)),
{
    ef_mul_limbs(a, a)
}

/// The three differences that vanish exactly when two elements agree.
pub open spec fn limb_differences(a: Ext, b: Ext) -> Seq<int> {
    seq![fsub(a.c0, b.c0), fsub(a.c1, b.c1), fsub(a.c2, b.c2)]
}

/// Asserts that two elements agree.
pub fn ef_assert_eq<S: ConstraintSink>(sink: &mut S, a: &[S::E; 3], b: &[S::E; 3])
    ensures
        final(sink).emitted() == old(sink).emitted() + limb_differences(limbs(a@), limbs(b@)),
{
    let ghost base = sink.emitted();
    sink.assert_zero(a[0].minus(&b[0]));
    sink.assert_zero(a[1].minus(&b[1]));
    sink.assert_zero(a[2].minus(&b[2]));
    proof {
        assert(sink.emitted() =~= base + limb_differences(limbs(a@), limbs(b@)));
    }
}

/// The differences vanish exactly when the elements agree.
pub proof fn lemma_limb_differences(a: Ext, b: Ext)
    requires
        crate::ext::ecanonical(a),
        crate::ext::ecanonical(b),
    ensures
        crate::constraint::all_zero(limb_differences(a, b)) <==> a == b,
{
    let d = limb_differences(a, b);
    if crate::constraint::all_zero(d) {
        assert(d[0] == 0 && d[1] == 0 && d[2] == 0);
    }
}

} // verus!
