//! The base field: integers modulo the Mersenne prime `2^31 - 1`.
//!
//! A [`Val`] stands for a residue; its view is the canonical representative as an `int`.
use vstd::prelude::*;

verus! {

/// The field's modulus.
pub const P: u32 = 0x7fff_ffff;

/// Sum of two residues.
pub open spec fn fadd(a: int, b: int) -> int {
    (a + b) % (P as int)
}

/// Difference of two residues.
pub open spec fn fsub(a: int, b: int) -> int {
    (a - b) % (P as int)
}

/// Product of two residues.
pub open spec fn fmul(a: int, b: int) -> int {
    (a * b) % (P as int)
}

/// Additive inverse of a residue.
pub open spec fn fneg(a: int) -> int {
    (-a) % (P as int)
}

/// `0 <= a < P`.
pub open spec fn canonical(a: int) -> bool {
    0 <= a < P
}

/// The residue of a truth value: `1` for true, `0` for false.
pub open spec fn fbool(b: bool) -> int {
    if b {
        1
    } else {
        0
    }
}

/// An element of the field.
#[derive(Clone, Copy, Debug, PartialEq, Eq, Hash)]
pub struct Val {
    v: u32,
}

impl View for Val {
    type V = int;

    closed spec fn view(&self) -> int {
        self.v as int % (P as int)
    }
}

/// The views of a row of field elements.
pub open spec fn vals(row: Seq<Val>) -> Seq<int> {
    Seq::new(row.len(), |i: int| row[i]@)
}

/// A view is always a canonical representative.
pub broadcast proof fn lemma_val_canonical(x: Val)
    ensures
        canonical(#[trigger] x@),
{
}

impl Val {
    #[verifier::type_invariant]
    spec fn reduced(self) -> bool {
        self.v < P
    }

    /// The element `0`.
    pub fn zero() -> (r: Val)
        ensures
            r@ == 0,
    {
        Val { v: 0 }
    }

    /// The element `1`.
    pub fn one() -> (r: Val)
        ensures
            r@ == 1,
    {
        Val { v: 1 }
    }

    /// The residue class of `x`.
    pub fn from_u32(x: u32) -> (r: Val)
        ensures
            r@ == x as int % P as int,
    {
        Val { v: x % P }
    }

    /// The residue class of a machine word.
    pub fn from_usize(x: usize) -> (r: Val)
        ensures
            r@ == x as int % P as int,
    {
        Val { v: (x % (P as usize)) as u32 }
    }

    /// `1` for true, `0` for false.
    pub fn from_bool(b: bool) -> (r: Val)
        ensures
            r@ == fbool(b),
    {
        if b {
            Val::one()
        } else {
            Val::zero()
        }
    }

    /// The canonical representative.
    pub fn as_canonical_u32(&self) -> (r: u32)
        ensures
            r == self@,
            r < P,
    {
        proof {
            use_type_invariant(self);
        }
        self.v
    }

    /// Field addition.
    pub fn plus(&self, o: &Val) -> (r: Val)
        ensures
            r@ == fadd(self@, o@),
    {
        proof {
            use_type_invariant(self);
            use_type_invariant(o);
        }
        let s: u32 = self.v + o.v;
        Val { v: s % P }
    }

    /// Field subtraction.
    pub fn minus(&self, o: &Val) -> (r: Val)
        ensures
            r@ == fsub(self@, o@),
    {
        proof {
            use_type_invariant(self);
            use_type_invariant(o);
        }
        if self.v >= o.v {
            Val { v: self.v - o.v }
        } else {
            Val { v: (P - o.v) + self.v }
        }
    }

    /// Field multiplication.
    pub fn times(&self, o: &Val) -> (r: Val)
        ensures
            r@ == fmul(self@, o@),
    {
        proof {
            use_type_invariant(self);
            use_type_invariant(o);
            assert(self.v * o.v <= 0x7fff_fffe * 0x7fff_fffe) by (nonlinear_arith)
                requires
                    self.v <= 0x7fff_fffe,
                    o.v <= 0x7fff_fffe,
            ;
        }
        let m: u64 = self.v as u64 * o.v as u64;
        let r: u64 = m % (P as u64);
        Val { v: r as u32 }
    }

    /// Field negation.
    pub fn negate(&self) -> (r: Val)
        ensures
            r@ == fneg(self@),
    {
        proof {
            use_type_invariant(self);
        }
        if self.v == 0 {
            Val { v: 0 }
        } else {
            Val { v: P - self.v }
        }
    }

    /// Whether two elements are the same residue.
    pub fn same(&self, o: &Val) -> (r: bool)
        ensures
            r == (self@ == o@),
            r ==> *self == *o,
    {
        proof {
            use_type_invariant(self);
            use_type_invariant(o);
        }
        self.v == o.v
    }
}

/// Whether two rows hold the same residues in the same order.
pub fn same_row(a: &[Val], b: &[Val]) -> (r: bool)
    ensures
        r == (vals(a@) == vals(b@)),
        r ==> a@ == b@,
{
    if a.len() != b.len() {
        proof {
            assert(vals(a@).len() != vals(b@).len());
        }
        return false;
    }
    let mut i: usize = 0;
    while i < a.len()
        invariant
            i <= a.len(),
            a.len() == b.len(),
            forall|j: int| 0 <= j < i ==> a@[j] == b@[j],
        decreases a.len() - i,
    {
        if !a[i].same(&b[i]) {
            proof {
                assert(vals(a@)[i as int] != vals(b@)[i as int]);
            }
            return false;
        }
        i += 1;
    }
    proof {
        assert(a@ =~= b@);
    }
    true
}

} // verus!
