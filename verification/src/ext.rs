//! The challenge field: polynomials of degree below three over the base field, modulo
//! `X^3 - 5`.
use p3_field::extension::BinomialExtensionField;
use p3_field::{BasedVectorSpace, Field, PrimeField32};
use p3_mersenne_31::Mersenne31;
use vstd::arithmetic::div_mod::{
    lemma_add_mod_noop, lemma_mul_mod_noop_right,
};
use vstd::prelude::*;

use crate::field::{canonical, fadd, fmul, fneg, fsub, lemma_val_canonical, Val, P};

verus! {

/// The coefficients of an element, lowest degree first.
#[verifier::ext_equal]
pub struct Ext {
    pub c0: int,
    pub c1: int,
    pub c2: int,
}

/// Every coefficient is a canonical residue.
pub open spec fn ecanonical(a: Ext) -> bool {
    canonical(a.c0) && canonical(a.c1) && canonical(a.c2)
}

pub open spec fn ezero() -> Ext {
    Ext { c0: 0, c1: 0, c2: 0 }
}

pub open spec fn eone() -> Ext {
    Ext { c0: 1, c1: 0, c2: 0 }
}

/// A base element as a constant polynomial.
pub open spec fn ebase(x: int) -> Ext {
    Ext { c0: x, c1: 0, c2: 0 }
}

pub open spec fn eadd(a: Ext, b: Ext) -> Ext {
    Ext { c0: fadd(a.c0, b.c0), c1: fadd(a.c1, b.c1), c2: fadd(a.c2, b.c2) }
}

pub open spec fn esub(a: Ext, b: Ext) -> Ext {
    Ext { c0: fsub(a.c0, b.c0), c1: fsub(a.c1, b.c1), c2: fsub(a.c2, b.c2) }
}

pub open spec fn eneg(a: Ext) -> Ext {
    Ext { c0: fneg(a.c0), c1: fneg(a.c1), c2: fneg(a.c2) }
}

/// Product of polynomials with integer coefficients, modulo `X^3 - 5`.
pub open spec fn imul(a: Ext, b: Ext) -> Ext {
    Ext {
        c0: a.c0 * b.c0 + 5 * (a.c1 * b.c2 + a.c2 * b.c1),
        c1: a.c0 * b.c1 + a.c1 * b.c0 + 5 * (a.c2 * b.c2),
        c2: a.c0 * b.c2 + a.c1 * b.c1 + a.c2 * b.c0,
    }
}

/// Coefficients reduced to canonical residues.
pub open spec fn ereduce(a: Ext) -> Ext {
    Ext { c0: a.c0 % (P as int), c1: a.c1 % (P as int), c2: a.c2 % (P as int) }
}

/// Product in the challenge field.
#[verifier::opaque]
pub open spec fn emul(a: Ext, b: Ext) -> Ext {
    ereduce(imul(a, b))
}

/// Product with a base element.
pub open spec fn escale(a: Ext, s: int) -> Ext {
    Ext { c0: fmul(a.c0, s), c1: fmul(a.c1, s), c2: fmul(a.c2, s) }
}

/// Half of an element: `2^30` is the inverse of two.
pub open spec fn ehalve(a: Ext) -> Ext {
    escale(a, 0x4000_0000)
}

pub open spec fn esquare(a: Ext) -> Ext {
    emul(a, a)
}

pub open spec fn edouble(a: Ext) -> Ext {
    eadd(a, a)
}

/// The `n`-th power.
pub open spec fn epow(a: Ext, n: nat) -> Ext
    decreases n,
{
    if n == 0 {
        eone()
    } else {
        emul(epow(a, (n - 1) as nat), a)
    }
}

/// An element of the challenge field.
#[derive(Clone, Copy, Debug, PartialEq, Eq, Hash)]
pub struct Challenge {
    pub c0: Val,
    pub c1: Val,
    pub c2: Val,
}

impl View for Challenge {
    type V = Ext;

    open spec fn view(&self) -> Ext {
        Ext { c0: self.c0@, c1: self.c1@, c2: self.c2@ }
    }
}

/// The views of a list of elements.
pub open spec fn evals_of(s: Seq<Challenge>) -> Seq<Ext> {
    Seq::new(s.len(), |i: int| s[i]@)
}

pub broadcast proof fn lemma_challenge_canonical(x: Challenge)
    ensures
        ecanonical(#[trigger] x@),
{
    broadcast use lemma_val_canonical;

}

/// `p3_field::Field::try_inverse` on `Mersenne31`: the multiplicative inverse, which exists
/// exactly for nonzero elements.
#[verifier::external_body]
fn mersenne_try_inverse(x: Val) -> (r: Option<Val>)
    ensures
        r is Some <==> x@ != 0,
        r matches Some(i) ==> fmul(x@, i@) == 1,
{
    Mersenne31::new(x.as_canonical_u32()).try_inverse().map(
        |i| Val::from_u32(i.as_canonical_u32()),
    )
}

/// `p3_field::Field::try_inverse` on `BinomialExtensionField<Mersenne31, 3>` (`X^3 - 5`): the
/// multiplicative inverse, which exists exactly for nonzero elements.
#[verifier::external_body]
fn extension_try_inverse(x: Challenge) -> (r: Option<Challenge>)
    ensures
        r is Some <==> x@ != ezero(),
        r matches Some(i) ==> emul(x@, i@) == eone(),
{
    let c = [x.c0, x.c1, x.c2].map(|v| Mersenne31::new(v.as_canonical_u32()));
    BinomialExtensionField::<Mersenne31, 3>::new(c).try_inverse().map(
        |i|
            {
                let s: &[Mersenne31] = i.as_basis_coefficients_slice();
                Challenge::from_words(
                    s[0].as_canonical_u32(),
                    s[1].as_canonical_u32(),
                    s[2].as_canonical_u32(),
                )
            },
    )
}

impl Val {
    /// The multiplicative inverse, if there is one.
    pub fn try_inverse(&self) -> (r: Option<Val>)
        ensures
            r is Some <==> self@ != 0,
            r matches Some(i) ==> fmul(self@, i@) == 1,
    {
        mersenne_try_inverse(*self)
    }
}

impl Challenge {
    pub fn zero() -> (r: Challenge)
        ensures
            r@ == ezero(),
    {
        Challenge { c0: Val::zero(), c1: Val::zero(), c2: Val::zero() }
    }

    pub fn one() -> (r: Challenge)
        ensures
            r@ == eone(),
    {
        Challenge { c0: Val::one(), c1: Val::zero(), c2: Val::zero() }
    }

    /// An element from its three coefficients.
    pub fn new(c: [Val; 3]) -> (r: Challenge)
        ensures
            r.c0 == c@[0],
            r.c1 == c@[1],
            r.c2 == c@[2],
    {
        Challenge { c0: c[0], c1: c[1], c2: c[2] }
    }

    /// An element from three words, each reduced.
    pub fn from_words(c0: u32, c1: u32, c2: u32) -> (r: Challenge)
        ensures
            r@ == (Ext {
                c0: c0 as int % P as int,
                c1: c1 as int % P as int,
                c2: c2 as int % P as int,
            }),
    {
        Challenge { c0: Val::from_u32(c0), c1: Val::from_u32(c1), c2: Val::from_u32(c2) }
    }

    /// A base element.
    pub fn from_base(x: Val) -> (r: Challenge)
        ensures
            r@ == ebase(x@),
    {
        Challenge { c0: x, c1: Val::zero(), c2: Val::zero() }
    }

    pub fn plus(&self, o: &Challenge) -> (r: Challenge)
        ensures
            r@ == eadd(self@, o@),
    {
        Challenge { c0: self.c0.plus(&o.c0), c1: self.c1.plus(&o.c1), c2: self.c2.plus(&o.c2) }
    }

    pub fn minus(&self, o: &Challenge) -> (r: Challenge)
        ensures
            r@ == esub(self@, o@),
    {
        Challenge { c0: self.c0.minus(&o.c0), c1: self.c1.minus(&o.c1), c2: self.c2.minus(&o.c2) }
    }

    pub fn negate(&self) -> (r: Challenge)
        ensures
            r@ == eneg(self@),
    {
        Challenge { c0: self.c0.negate(), c1: self.c1.negate(), c2: self.c2.negate() }
    }

    #[verifier::rlimit(40)]
    pub fn times(&self, o: &Challenge) -> (r: Challenge)
        ensures
            r@ == emul(self@, o@),
    {
        let five = Val::from_u32(5);
        let r = Challenge {
            c0: self.c0.times(&o.c0).plus(
                &five.times(&self.c1.times(&o.c2).plus(&self.c2.times(&o.c1))),
            ),
            c1: self.c0.times(&o.c1).plus(&self.c1.times(&o.c0)).plus(
                &five.times(&self.c2.times(&o.c2)),
            ),
            c2: self.c0.times(&o.c2).plus(&self.c1.times(&o.c1)).plus(&self.c2.times(&o.c0)),
        };
        proof {
            reveal(emul);
            let (a, b) = (self@, o@);
            lemma_sum_two(a.c0 * b.c0, 5, a.c1 * b.c2, a.c2 * b.c1);
            lemma_sum_three(a.c0 * b.c1, a.c1 * b.c0, 5, a.c2 * b.c2);
            lemma_sum_plain(a.c0 * b.c2, a.c1 * b.c1, a.c2 * b.c0);
        }
        r
    }

    pub fn square(&self) -> (r: Challenge)
        ensures
            r@ == esquare(self@),
    {
        self.times(self)
    }

    pub fn double(&self) -> (r: Challenge)
        ensures
            r@ == edouble(self@),
    {
        self.plus(self)
    }

    /// Product with a base element.
    pub fn scale(&self, s: &Val) -> (r: Challenge)
        ensures
            r@ == escale(self@, s@),
    {
        Challenge { c0: self.c0.times(s), c1: self.c1.times(s), c2: self.c2.times(s) }
    }

    pub fn halve(&self) -> (r: Challenge)
        ensures
            r@ == ehalve(self@),
    {
        self.scale(&Val::from_u32(0x4000_0000))
    }

    /// The `n`-th power.
    pub fn exp(&self, n: usize) -> (r: Challenge)
        ensures
            r@ == epow(self@, n as nat),
    {
        let mut r = Challenge::one();
        let mut i: usize = 0;
        while i < n
            invariant
                i <= n,
                r@ == epow(self@, i as nat),
            decreases n - i,
        {
            r = r.times(self);
            i += 1;
        }
        r
    }

    /// The multiplicative inverse, if there is one.
    pub fn try_inverse(&self) -> (r: Option<Challenge>)
        ensures
            r is Some <==> self@ != ezero(),
            r matches Some(i) ==> emul(self@, i@) == eone(),
    {
        extension_try_inverse(*self)
    }

    /// Whether two elements are equal.
    pub fn same(&self, o: &Challenge) -> (r: bool)
        ensures
            r == (self@ == o@),
            r ==> *self == *o,
    {
        self.c0.same(&o.c0) && self.c1.same(&o.c1) && self.c2.same(&o.c2)
    }
}

proof fn lemma_sum_two(x: int, s: int, y: int, z: int)
    ensures
        fadd(
            x % (P as int),
            fmul(s, fadd(y % (P as int), z % (P as int))),
        ) == (x + s * (y + z)) % (P as int),
{
    let p: int = P as int;
    lemma_add_mod_noop(y, z, p);
    lemma_mul_mod_noop_right(s, y + z, p);
    lemma_add_mod_noop(x, s * (y + z), p);
}

proof fn lemma_sum_three(x: int, y: int, s: int, z: int)
    ensures
        fadd(
            fadd(x % (P as int), y % (P as int)),
            fmul(s, z % (P as int)),
        ) == (x + y + s * z) % (P as int),
{
    let p: int = P as int;
    lemma_add_mod_noop(x, y, p);
    lemma_mul_mod_noop_right(s, z, p);
    lemma_add_mod_noop(x + y, s * z, p);
}

proof fn lemma_sum_plain(x: int, y: int, z: int)
    ensures
        fadd(fadd(x % (P as int), y % (P as int)), z % (P as int)) == (x + y + z) % (P as int),
{
    let p: int = P as int;
    lemma_add_mod_noop(x, y, p);
    lemma_add_mod_noop(x + y, z, p);
}

} // verus!
