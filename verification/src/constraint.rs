//! Constraint expressions and the sink that collects them.
//!
//! A constraint system is written once, over any expression type that supports field
//! arithmetic. Its meaning is the sequence of values it emits: a row pair satisfies the system
//! when all of them are zero.
use vstd::prelude::*;

use crate::field::{fadd, fmul, fsub, vals, Val, P};

verus! {

/// An expression over the cells of a row pair. `val` is its value at the row pair at hand; an
/// implementation outside this crate need not say what it is.
pub trait Expr: Sized {
    closed spec fn val(&self) -> int {
        arbitrary()
    }

    fn dup(&self) -> (r: Self)
        ensures
            r.val() == self.val(),
    ;

    fn lit(x: u32) -> (r: Self)
        ensures
            r.val() == x as int % (P as int),
    ;

    fn plus(&self, o: &Self) -> (r: Self)
        ensures
            r.val() == fadd(self.val(), o.val()),
    ;

    fn minus(&self, o: &Self) -> (r: Self)
        ensures
            r.val() == fsub(self.val(), o.val()),
    ;

    fn times(&self, o: &Self) -> (r: Self)
        ensures
            r.val() == fmul(self.val(), o.val()),
    ;
}

/// Collects constraints; `emitted` lists the values asserted to be zero so far. An implementation
/// outside this crate need not say what it is.
pub trait ConstraintSink {
    type E: Expr;

    closed spec fn emitted(&self) -> Seq<int> {
        arbitrary()
    }

    fn assert_zero(&mut self, e: Self::E)
        ensures
            final(self).emitted() == old(self).emitted().push(e.val()),
    ;
}

/// The values of a list of expressions.
pub open spec fn evals<E: Expr>(s: Seq<E>) -> Seq<int> {
    Seq::new(s.len(), |i: int| s[i].val())
}

/// The cells a constraint system reads: two consecutive rows, the public values, and the
/// first-row and transition selectors.
pub struct Window<E> {
    pub curr: Vec<E>,
    pub next: Vec<E>,
    pub pv: Vec<E>,
    pub first: E,
    pub trans: E,
}

/// What a [`Window`] holds, as residues.
#[verifier::ext_equal]
pub struct WindowVals {
    pub curr: Seq<int>,
    pub next: Seq<int>,
    pub pv: Seq<int>,
    pub first: int,
    pub trans: int,
}

impl<E: Expr> View for Window<E> {
    type V = WindowVals;

    open spec fn view(&self) -> WindowVals {
        WindowVals {
            curr: evals(self.curr@),
            next: evals(self.next@),
            pv: evals(self.pv@),
            first: self.first.val(),
            trans: self.trans.val(),
        }
    }
}

impl Expr for Val {
    open spec fn val(&self) -> int {
        self@
    }

    fn dup(&self) -> (r: Self) {
        *self
    }

    fn lit(x: u32) -> (r: Self) {
        Val::from_u32(x)
    }

    fn plus(&self, o: &Self) -> (r: Self) {
        Val::plus(self, o)
    }

    fn minus(&self, o: &Self) -> (r: Self) {
        Val::minus(self, o)
    }

    fn times(&self, o: &Self) -> (r: Self) {
        Val::times(self, o)
    }
}

/// Evaluates a constraint system on concrete rows and keeps every emitted value.
pub struct RowEvaluator {
    pub values: Vec<Val>,
}

impl RowEvaluator {
    /// An evaluator that has seen no constraint.
    pub fn new() -> (r: RowEvaluator)
        ensures
            r.emitted() == Seq::<int>::empty(),
    {
        let r = RowEvaluator { values: Vec::new() };
        proof {
            assert(r.emitted() =~= Seq::<int>::empty());
        }
        r
    }

    /// Whether every constraint seen so far holds.
    pub fn satisfied(&self) -> (r: bool)
        ensures
            r == all_zero(self.emitted()),
    {
        let zero = Val::zero();
        let mut i: usize = 0;
        while i < self.values.len()
            invariant
                i <= self.values.len(),
                zero@ == 0,
                forall|j: int| 0 <= j < i ==> #[trigger] self.emitted()[j] == 0,
            decreases self.values.len() - i,
        {
            if !self.values[i].same(&zero) {
                proof {
                    assert(self.emitted()[i as int] != 0);
                }
                return false;
            }
            i += 1;
        }
        true
    }
}

impl ConstraintSink for RowEvaluator {
    type E = Val;

    open spec fn emitted(&self) -> Seq<int> {
        vals(self.values@)
    }

    fn assert_zero(&mut self, e: Val) {
        self.values.push(e);
        proof {
            assert(self.emitted() =~= old(self).emitted().push(e@));
        }
    }
}

/// Every listed value is zero.
pub open spec fn all_zero(s: Seq<int>) -> bool {
    forall|i: int| 0 <= i < s.len() ==> #[trigger] s[i] == 0
}

/// A concatenation is all zero exactly when both parts are.
pub proof fn lemma_all_zero_concat(a: Seq<int>, b: Seq<int>)
    ensures
        all_zero(a + b) <==> all_zero(a) && all_zero(b),
{
    let c = a + b;
    if all_zero(c) {
        assert forall|i: int| 0 <= i < a.len() implies #[trigger] a[i] == 0 by {
            assert(c[i] == a[i]);
        }
        assert forall|i: int| 0 <= i < b.len() implies #[trigger] b[i] == 0 by {
            assert(c[a.len() + i] == b[i]);
        }
    }
}

/// Three-way conjunction used by selectors: `a * b * c`.
pub open spec fn fmul3(a: int, b: int, c: int) -> int {
    fmul(fmul(a, b), c)
}

/// `a + b - 2ab`, which on bits is their exclusive or.
pub open spec fn fxor(a: int, b: int) -> int {
    fsub(fadd(a, b), fmul(fmul(2, a), b))
}

/// `x (x - 1)`, zero exactly on bits.
pub open spec fn fbit(x: int) -> int {
    fmul(x, fsub(x, 1))
}

/// The exclusive-or expression of two bits.
pub fn expr_xor<E: Expr>(a: &E, b: &E) -> (r: E)
    ensures
        r.val() == fxor(a.val(), b.val()),
{
    let two = E::lit(2);
    a.plus(b).minus(&two.times(a).times(b))
}

/// Asserts that each listed expression is a bit.
pub fn assert_bits<S: ConstraintSink>(sink: &mut S, row: &[S::E])
    ensures
        final(sink).emitted() == old(sink).emitted() + bit_constraints(evals(row@)),
{
    let one = <S::E as Expr>::lit(1);
    let ghost base = sink.emitted();
    let ghost want = bit_constraints(evals(row@));
    let mut i: usize = 0;
    while i < row.len()
        invariant
            i <= row.len(),
            one.val() == 1,
            want == bit_constraints(evals(row@)),
            sink.emitted() == base + want.take(i as int),
        decreases row.len() - i,
    {
        let e = row[i].times(&row[i].minus(&one));
        sink.assert_zero(e);
        proof {
            assert(sink.emitted() =~= base + want.take(i + 1));
        }
        i += 1;
    }
    proof {
        assert(want.take(row.len() as int) =~= want);
    }
}

/// One bit constraint per cell.
pub open spec fn bit_constraints(row: Seq<int>) -> Seq<int> {
    Seq::new(row.len(), |i: int| fbit(row[i]))
}

} // verus!
