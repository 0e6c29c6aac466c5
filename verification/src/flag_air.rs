//! The one-column trace of systems whose constraints speak of public values only: a flag that
//! stays at one.
use vstd::prelude::*;

use crate::constraint::{all_zero, fbit, ConstraintSink, Expr, Window, WindowVals};
use crate::ext::{evals_of, Challenge, Ext};
use crate::field::{fmul, fsub, vals, Val};
use crate::matrix::{push_val, RowMajorMatrix};

verus! {

/// The flag is a bit, is one, and keeps its value.
pub open spec fn flag_constraints(w: WindowVals) -> Seq<int> {
    seq![
        fbit(w.curr[0]),
        fsub(w.curr[0], 1),
        fmul(w.trans, fsub(w.next[0], w.curr[0])),
    ]
}

/// Emits the flag constraints.
pub fn constrain_flag<S: ConstraintSink>(sink: &mut S, w: &Window<S::E>)
    requires
        w.curr@.len() >= 1,
        w.next@.len() >= 1,
    ensures
        final(sink).emitted() == old(sink).emitted() + flag_constraints(w@),
{
    let ghost base = sink.emitted();
    let one = <S::E as Expr>::lit(1);
    sink.assert_zero(w.curr[0].times(&w.curr[0].minus(&one)));
    sink.assert_zero(w.curr[0].minus(&one));
    sink.assert_zero(w.trans.times(&w.next[0].minus(&w.curr[0])));
    proof {
        assert(sink.emitted() =~= base + flag_constraints(w@));
    }
}

/// A trace of `n` flags, all one.
pub open spec fn is_flag_trace(m: RowMajorMatrix, n: int) -> bool {
    &&& m.width == 1
    &&& m.values@.len() == n
    &&& forall|i: int| 0 <= i < n ==> (#[trigger] m.values@[i])@ == 1
}

/// The trace of `n` flags.
pub fn flag_matrix(n: usize) -> (m: RowMajorMatrix)
    ensures
        is_flag_trace(m, n as int),
{
    let one = Val::one();
    let mut values: Vec<Val> = Vec::new();
    let mut i: usize = 0;
    while i < n
        invariant
            i <= n,
            one@ == 1,
            values@.len() == i,
            forall|j: int| 0 <= j < i ==> (#[trigger] values@[j])@ == 1,
        decreases n - i,
    {
        values.push(one);
        i += 1;
    }
    RowMajorMatrix { values, width: 1 }
}

/// On a trace of flags the flag constraints hold at every row.
pub proof fn lemma_flag_trace_satisfies(m: RowMajorMatrix, n: int, i: int, pv: Seq<int>)
    requires
        is_flag_trace(m, n),
        0 <= i < n,
    ensures
        all_zero(flag_constraints(m.window_vals(i, pv))),
{
    let w = m.window_vals(i, pv);
    assert(m.rows() == n) by {
        assert(n / 1 == n);
    }
    let j: int = if i + 1 == m.rows() {
        0
    } else {
        i + 1
    };
    assert(i * 1 + 0 == i && j * 1 + 0 == j);
    assert(w.curr[0] == m.values@[i]@);
    assert(w.next[0] == m.values@[j]@);
    assert(1int * 0int == 0);
    assert(w.trans * 0int == 0);
}

/// The coefficients of an element in order.
pub open spec fn ext_seq(e: Ext) -> Seq<int> {
    seq![e.c0, e.c1, e.c2]
}

/// The element with the given limbs.
pub open spec fn limb_ext(a: Seq<Val>) -> Ext {
    Ext { c0: a[0]@, c1: a[1]@, c2: a[2]@ }
}

/// Appends the coefficients of a challenge.
pub fn push_challenge(pv: &mut Vec<Val>, c: &Challenge)
    ensures
        vals(final(pv)@) == vals(old(pv)@) + ext_seq(c@),
        final(pv)@.len() == old(pv)@.len() + 3,
{
    pv.push(c.c0);
    pv.push(c.c1);
    pv.push(c.c2);
    proof {
        assert(vals(pv@) =~= vals(old(pv)@) + ext_seq(c@));
    }
}

/// Appends three limbs.
pub fn push_limbs(pv: &mut Vec<Val>, a: &[Val; 3])
    ensures
        vals(final(pv)@) == vals(old(pv)@) + ext_seq(limb_ext(a@)),
        final(pv)@.len() == old(pv)@.len() + 3,
{
    pv.push(a[0]);
    pv.push(a[1]);
    pv.push(a[2]);
    proof {
        assert(vals(pv@) =~= vals(old(pv)@) + ext_seq(limb_ext(a@)));
    }
}

/// Whether two limb triples are equal.
pub fn same_limbs(a: &[Val; 3], b: &[Val; 3]) -> (r: bool)
    ensures
        r == (limb_ext(a@) == limb_ext(b@)),
        r == (*a == *b),
{
    let r: bool = a[0].same(&b[0]) && a[1].same(&b[1]) && a[2].same(&b[2]);
    proof {
        if r {
            assert(a@ =~= b@);
            assert(*a =~= *b);
        }
    }
    r
}

/// Coefficient `j` of an element.
pub open spec fn coefficient(e: Ext, j: int) -> int {
    if j == 0 {
        e.c0
    } else if j == 1 {
        e.c1
    } else {
        e.c2
    }
}

/// The coefficients of elements, one element after the other.
pub open spec fn exts(s: Seq<Ext>) -> Seq<int> {
    Seq::new(3 * s.len(), |i: int| coefficient(s[i / 3], i % 3))
}

/// Three coefficients in a row, starting at a whole element, are that element's.
pub proof fn lemma_exts_at(s: Seq<Ext>, i: int)
    requires
        0 <= i < s.len(),
    ensures
        crate::ef_limbs::limbs_at(exts(s), 3 * i) == s[i],
{
    assert((3 * i) / 3 == i && (3 * i) % 3 == 0);
    assert((3 * i + 1) / 3 == i && (3 * i + 1) % 3 == 1);
    assert((3 * i + 2) / 3 == i && (3 * i + 2) % 3 == 2);
}

/// Limbs read inside the middle part of a sequence.
pub proof fn lemma_limbs_inside(a: Seq<int>, s: Seq<Ext>, b: Seq<int>, i: int)
    requires
        0 <= i < s.len(),
    ensures
        crate::ef_limbs::limbs_at(a + exts(s) + b, a.len() + 3 * i) == s[i],
{
    lemma_exts_at(s, i);
    let all = a + exts(s) + b;
    let k: int = 3 * i;
    assert(all[a.len() + k] == exts(s)[k]);
    assert(all[a.len() + k + 1] == exts(s)[k + 1]);
    assert(all[a.len() + k + 2] == exts(s)[k + 2]);
}

/// Appends the coefficients of challenges.
pub fn push_challenges(pv: &mut Vec<Val>, s: &[Challenge])
    ensures
        vals(final(pv)@) == vals(old(pv)@) + exts(evals_of(s@)),
{
    let ghost before = vals(pv@);
    let ghost want = exts(evals_of(s@));
    proof {
        assert(before + want.take(0) =~= before);
    }
    let mut i: usize = 0;
    while i < s.len()
        invariant
            i <= s.len(),
            want == exts(evals_of(s@)),
            vals(pv@) == before + want.take(3 * i),
        decreases s.len() - i,
    {
        push_challenge(pv, &s[i]);
        proof {
            lemma_exts_at(evals_of(s@), i as int);
            assert(want.take(3 * i + 3) =~= want.take(3 * i) + ext_seq(s@[i as int]@)) by {
                let l = crate::ef_limbs::limbs_at(want, 3 * i);
                assert(l == s@[i as int]@);
                assert(want[3 * i] == l.c0 && want[3 * i + 1] == l.c1 && want[3 * i + 2] == l.c2);
            }
            assert(vals(pv@) =~= before + want.take(3 * i + 3));
        }
        i += 1;
    }
    proof {
        assert(want.take((3 * s@.len()) as int) =~= want);
    }
}

/// Appends elements.
pub fn push_vals(pv: &mut Vec<Val>, s: &[Val])
    ensures
        vals(final(pv)@) == vals(old(pv)@) + vals(s@),
{
    let ghost before = vals(pv@);
    proof {
        assert(before + vals(s@.take(0)) =~= before);
    }
    let mut i: usize = 0;
    while i < s.len()
        invariant
            i <= s.len(),
            vals(pv@) == before + vals(s@.take(i as int)),
        decreases s.len() - i,
    {
        push_val(pv, s[i]);
        proof {
            assert(vals(s@.take(i + 1)) =~= vals(s@.take(i as int)).push(s@[i as int]@));
            assert(vals(pv@) =~= before + vals(s@.take(i + 1)));
        }
        i += 1;
    }
    proof {
        assert(s@.take(s@.len() as int) =~= s@);
    }
}

} // verus!
