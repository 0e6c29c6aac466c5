//! Row-major traces of field elements.
use vstd::prelude::*;

use crate::constraint::{evals, Window, WindowVals};
use crate::field::{fbool, vals, Val};

verus! {

/// A trace stored row after row.
#[derive(Debug)]
pub struct RowMajorMatrix {
    pub values: Vec<Val>,
    pub width: usize,
}

impl RowMajorMatrix {
    /// A whole number of rows, at least one.
    pub open spec fn wf(self) -> bool {
        &&& self.width > 0
        &&& self.values@.len() > 0
        &&& self.values@.len() % (self.width as nat) == 0
    }

    pub open spec fn rows(self) -> int {
        self.values@.len() as int / self.width as int
    }

    /// Row `i` as residues.
    pub open spec fn row(self, i: int) -> Seq<int> {
        Seq::new(self.width as nat, |c: int| self.values@[i * self.width + c]@)
    }

    /// The row pair that starts at row `i`; the last row is followed by the first.
    pub open spec fn window_vals(self, i: int, pv: Seq<int>) -> WindowVals {
        WindowVals {
            curr: self.row(i),
            next: self.row(if i + 1 == self.rows() {
                0
            } else {
                i + 1
            }),
            pv,
            first: fbool(i == 0),
            trans: fbool(i + 1 != self.rows()),
        }
    }

    /// Number of rows.
    pub fn height(&self) -> (h: usize)
        requires
            self.width > 0,
        ensures
            h == self.rows(),
    {
        self.values.len() / self.width
    }

    /// The cells of row `i`.
    pub fn row_cells(&self, i: usize) -> (r: Vec<Val>)
        requires
            self.wf(),
            i < self.rows(),
        ensures
            vals(r@) == self.row(i as int),
            r@.len() == self.width,
    {
        proof {
            lemma_row_in_range(self.values@.len() as int, self.width as int, i as int);
        }
        let n: usize = self.values.len();
        let base: usize = i * self.width;
        let mut r: Vec<Val> = Vec::new();
        let mut c: usize = 0;
        while c < self.width
            invariant
                c <= self.width,
                n == self.values@.len(),
                base == i * self.width,
                base + self.width <= n,
                r@.len() == c,
                forall|k: int| 0 <= k < c ==> #[trigger] r@[k] == self.values@[base + k],
            decreases self.width - c,
        {
            r.push(self.values[base + c]);
            c += 1;
        }
        proof {
            assert(vals(r@) =~= self.row(i as int));
        }
        r
    }

    /// The window that starts at row `i`.
    pub fn window(&self, i: usize, pv: &Vec<Val>) -> (w: Window<Val>)
        requires
            self.wf(),
            i < self.rows(),
        ensures
            w@ == self.window_vals(i as int, vals(pv@)),
            w.curr@.len() == self.width,
            w.next@.len() == self.width,
            w.pv@ == pv@,
    {
        let h: usize = self.height();
        let curr = self.row_cells(i);
        let last: bool = i == h - 1;
        let next = self.row_cells(
            if last {
                0
            } else {
                i + 1
            },
        );
        let w = Window {
            curr,
            next,
            pv: pv.clone(),
            first: Val::from_bool(i == 0),
            trans: Val::from_bool(!last),
        };
        proof {
            assert(w.pv@ =~= pv@);
            assert(evals(w.curr@) =~= vals(curr@));
            assert(evals(w.next@) =~= vals(next@));
            assert(evals(w.pv@) =~= vals(pv@));
        }
        w
    }
}

proof fn lemma_row_in_range(len: int, width: int, i: int)
    requires
        width > 0,
        len % width == 0,
        0 <= i < len / width,
    ensures
        0 <= i * width,
        i * width + width <= len,
{
    assert(len == width * (len / width) + len % width) by (nonlinear_arith)
        requires
            width > 0,
    ;
    assert(i * width + width <= width * (len / width)) by (nonlinear_arith)
        requires
            width > 0,
            0 <= i,
            i + 1 <= len / width,
    ;
    assert(0 <= i * width) by (nonlinear_arith)
        requires
            width > 0,
            0 <= i,
    ;
}

/// Appending a row to a trace of `n` rows adds row `n` and keeps the others.
pub proof fn lemma_append_row(before: RowMajorMatrix, after: RowMajorMatrix, row: Seq<int>, n: int)
    requires
        after.width == before.width,
        row.len() == before.width,
        0 <= n,
        before.values@.len() == n * before.width,
        vals(after.values@) == vals(before.values@) + row,
    ensures
        after.values@.len() == (n + 1) * before.width,
        after.row(n) == row,
        forall|k: int| 0 <= k < n ==> #[trigger] after.row(k) == before.row(k),
{
    let w: int = before.width as int;
    assert(vals(after.values@).len() == after.values@.len());
    assert((n + 1) * w == n * w + w) by (nonlinear_arith);
    assert forall|c: int| 0 <= c < w implies #[trigger] after.row(n)[c] == row[c] by {
        assert(vals(after.values@)[n * w + c] == row[c]);
    }
    assert(after.row(n) =~= row);
    assert forall|k: int| 0 <= k < n implies #[trigger] after.row(k) == before.row(k) by {
        assert(0 <= k * w && k * w + w <= n * w) by (nonlinear_arith)
            requires
                0 <= k,
                k + 1 <= n,
                0 <= w,
        ;
        assert forall|c: int| 0 <= c < w implies #[trigger] after.row(k)[c] == before.row(k)[c] by {
            assert(vals(after.values@)[k * w + c] == vals(before.values@)[k * w + c]);
        }
        assert(after.row(k) =~= before.row(k));
    }
}

/// Appends the bits of a truth list.
pub fn push_bools(values: &mut Vec<Val>, bits: &[bool])
    ensures
        vals(final(values)@) == vals(old(values)@) + Seq::new(
            bits@.len(),
            |i: int| fbool(bits@[i]),
        ),
{
    let ghost base = vals(values@);
    let ghost want = Seq::new(bits@.len(), |i: int| fbool(bits@[i]));
    let mut i: usize = 0;
    while i < bits.len()
        invariant
            i <= bits.len(),
            want == Seq::new(bits@.len(), |i: int| fbool(bits@[i])),
            vals(values@) == base + want.take(i as int),
        decreases bits.len() - i,
    {
        let ghost before = values@;
        values.push(Val::from_bool(bits[i]));
        proof {
            assert(vals(values@) =~= vals(before).push(fbool(bits@[i as int])));
            assert(vals(values@) =~= base + want.take(i + 1));
        }
        i += 1;
    }
    proof {
        assert(want.take(i as int) =~= want);
    }
}

/// Bytes as residues.
pub open spec fn byte_vals(b: Seq<u8>) -> Seq<int> {
    Seq::new(b.len(), |i: int| b[i] as int)
}

/// Appends bytes, one field element each.
pub fn push_bytes(values: &mut Vec<Val>, bytes: &[u8])
    ensures
        vals(final(values)@) == vals(old(values)@) + byte_vals(bytes@),
{
    let ghost base = vals(values@);
    let ghost want = byte_vals(bytes@);
    let mut i: usize = 0;
    while i < bytes.len()
        invariant
            i <= bytes.len(),
            want == byte_vals(bytes@),
            vals(values@) == base + want.take(i as int),
        decreases bytes.len() - i,
    {
        let ghost before = values@;
        values.push(Val::from_u32(bytes[i] as u32));
        proof {
            assert(vals(values@) =~= vals(before).push(bytes@[i as int] as int));
            assert(vals(values@) =~= base + want.take(i + 1));
        }
        i += 1;
    }
    proof {
        assert(want.take(i as int) =~= want);
    }
}

/// Appends one element.
pub fn push_val(values: &mut Vec<Val>, x: Val)
    ensures
        vals(final(values)@) == vals(old(values)@).push(x@),
{
    values.push(x);
    proof {
        assert(vals(values@) =~= vals(old(values)@).push(x@));
    }
}

} // verus!
