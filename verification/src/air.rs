//! The recursive aggregation system.
//!
//! A row binds two children: their hashes, the digests and kinds of their proofs, their trace
//! commitments and aggregation rows, and the flags that they were accepted. Everything but the
//! flags stays from row to row.
use vstd::prelude::*;

use crate::agg_constraints::{AGG_LEFT_OK_COL, AGG_RIGHT_OK_COL};
use crate::constraint::{all_zero, fbit, lemma_all_zero_concat, ConstraintSink, Expr, Window, WindowVals};
use crate::field::{canonical, fmul, fsub};

verus! {

/// Width of the recursive aggregation trace.
pub const REC_AGG_WIDTH: usize = 330;

pub const REC_LEFT_OK_COL: usize = 64;

pub const REC_RIGHT_OK_COL: usize = 65;

pub const REC_LEFT_STARK_DIGEST_COL: usize = 66;

pub const REC_RIGHT_STARK_DIGEST_COL: usize = 98;

pub const REC_LEFT_KIND_COL: usize = 130;

pub const REC_RIGHT_KIND_COL: usize = 131;

pub const REC_LEFT_TRACE_COM_COL: usize = 132;

pub const REC_RIGHT_TRACE_COM_COL: usize = 164;

pub const REC_LEFT_AGG_ROW_COL: usize = 196;

pub const REC_RIGHT_AGG_ROW_COL: usize = 262;

pub const REC_LEFT_PCS_OK_COL: usize = 328;

pub const REC_RIGHT_PCS_OK_COL: usize = 329;

/// Kind of a child that is a leaf.
pub const REC_KIND_LEAF: u8 = 0;

/// Kind of a child that is itself an aggregation.
pub const REC_KIND_AGG: u8 = 1;

/// The recursive aggregation system.
#[derive(Copy, Clone, Debug)]
pub struct RecursiveAggregationAir;

/// Of the first `n` columns those not skipped keep their values on transitions.
pub open spec fn kept_constraints(w: WindowVals, skip: spec_fn(int) -> bool, n: nat) -> Seq<int>
    decreases n,
{
    if n == 0 {
        Seq::empty()
    } else if skip(n - 1) {
        kept_constraints(w, skip, (n - 1) as nat)
    } else {
        kept_constraints(w, skip, (n - 1) as nat).push(
            fmul(w.trans, fsub(w.next[n - 1], w.curr[n - 1])),
        )
    }
}

/// The columns of acceptance flags.
pub open spec fn rec_flag(col: int) -> bool {
    col == 64 || col == 65 || col == 328 || col == 329
}

impl RecursiveAggregationAir {
    /// Flags are one, kinds are bits, and an aggregation child's row accepts its own children.
    pub open spec fn flag_constraints(w: WindowVals) -> Seq<int> {
        let lk = w.curr[130];
        let rk = w.curr[131];
        seq![
            fmul(w.trans, fsub(w.curr[64], 1)),
            fmul(w.trans, fsub(w.curr[65], 1)),
            fmul(w.trans, fsub(w.curr[328], 1)),
            fmul(w.trans, fsub(w.curr[329], 1)),
            fmul(w.trans, fbit(lk)),
            fmul(w.trans, fbit(rk)),
            fmul(w.trans, fmul(lk, fsub(w.curr[260], 1))),
            fmul(w.trans, fmul(lk, fsub(w.curr[261], 1))),
            fmul(w.trans, fmul(rk, fsub(w.curr[326], 1))),
            fmul(w.trans, fmul(rk, fsub(w.curr[327], 1))),
        ]
    }

    pub open spec fn constraints(w: WindowVals) -> Seq<int> {
        Self::flag_constraints(w) + kept_constraints(w, |c: int| rec_flag(c), 330)
    }

    /// Number of columns.
    pub fn width(&self) -> (r: usize)
        ensures
            r == REC_AGG_WIDTH,
    {
        REC_AGG_WIDTH
    }

    /// Highest degree of a constraint beside the transition selector.
    pub fn max_constraint_degree(&self) -> (r: Option<usize>)
        ensures
            r == Some(2usize),
    {
        Some(2)
    }

    /// Emits the constraints of a row pair.
    pub fn eval<S: ConstraintSink>(&self, sink: &mut S, w: &Window<S::E>)
        requires
            w.curr@.len() == REC_AGG_WIDTH,
            w.next@.len() == REC_AGG_WIDTH,
        ensures
            final(sink).emitted() == old(sink).emitted() + Self::constraints(w@),
    {
        let ghost base = sink.emitted();
        let one = <S::E as Expr>::lit(1);
        let lk = &w.curr[REC_LEFT_KIND_COL];
        let rk = &w.curr[REC_RIGHT_KIND_COL];
        sink.assert_zero(w.trans.times(&w.curr[REC_LEFT_OK_COL].minus(&one)));
        sink.assert_zero(w.trans.times(&w.curr[REC_RIGHT_OK_COL].minus(&one)));
        sink.assert_zero(w.trans.times(&w.curr[REC_LEFT_PCS_OK_COL].minus(&one)));
        sink.assert_zero(w.trans.times(&w.curr[REC_RIGHT_PCS_OK_COL].minus(&one)));
        sink.assert_zero(w.trans.times(&lk.times(&lk.minus(&one))));
        sink.assert_zero(w.trans.times(&rk.times(&rk.minus(&one))));
        sink.assert_zero(
            w.trans.times(
                &lk.times(&w.curr[REC_LEFT_AGG_ROW_COL + AGG_LEFT_OK_COL].minus(&one)),
            ),
        );
        sink.assert_zero(
            w.trans.times(
                &lk.times(&w.curr[REC_LEFT_AGG_ROW_COL + AGG_RIGHT_OK_COL].minus(&one)),
            ),
        );
        sink.assert_zero(
            w.trans.times(
                &rk.times(&w.curr[REC_RIGHT_AGG_ROW_COL + AGG_LEFT_OK_COL].minus(&one)),
            ),
        );
        sink.assert_zero(
            w.trans.times(
                &rk.times(&w.curr[REC_RIGHT_AGG_ROW_COL + AGG_RIGHT_OK_COL].minus(&one)),
            ),
        );
        let ghost skip = |c: int| rec_flag(c);
        proof {
            assert(sink.emitted() =~= base + Self::flag_constraints(w@));
        }
        let ghost head = sink.emitted();
        proof {
            assert(head =~= head + kept_constraints(w@, skip, 0));
        }
        let mut col: usize = 0;
        while col < REC_AGG_WIDTH
            invariant
                col <= REC_AGG_WIDTH,
                w.curr@.len() == REC_AGG_WIDTH,
                w.next@.len() == REC_AGG_WIDTH,
                skip == (|c: int| rec_flag(c)),
                sink.emitted() == head + kept_constraints(w@, skip, col as nat),
            decreases REC_AGG_WIDTH - col,
        {
            if col != REC_LEFT_OK_COL && col != REC_RIGHT_OK_COL && col != REC_LEFT_PCS_OK_COL
                && col != REC_RIGHT_PCS_OK_COL {
                sink.assert_zero(w.trans.times(&w.next[col].minus(&w.curr[col])));
                proof {
                    let k = kept_constraints(w@, skip, (col + 1) as nat);
                    assert(k == kept_constraints(w@, skip, col as nat).push(
                        fmul(w@.trans, fsub(w@.next[col as int], w@.curr[col as int])),
                    ));
                    assert(sink.emitted() =~= head + k);
                }
            } else {
                proof {
                    assert(skip(col as int));
                    assert(kept_constraints(w@, skip, (col + 1) as nat) == kept_constraints(
                        w@,
                        skip,
                        col as nat,
                    ));
                }
            }
            col += 1;
        }
        proof {
            assert(sink.emitted() =~= base + Self::constraints(w@));
        }
    }
}

/// A product with one is zero exactly when the other factor is, and a difference is zero exactly
/// when both sides are equal.
pub proof fn lemma_difference(a: int, b: int)
    requires
        canonical(a),
        canonical(b),
    ensures
        fmul(1, fsub(a, b)) == 0 <==> a == b,
        fmul(1, fsub(a, b)) == fsub(a, b),
{
    let p = crate::field::P as int;
    let d = a - b;
    assert(-p < d < p);
    if d >= 0 {
        vstd::arithmetic::div_mod::lemma_small_mod(d as nat, p as nat);
    } else {
        vstd::arithmetic::div_mod::lemma_mod_add_multiples_vanish(d, p);
        vstd::arithmetic::div_mod::lemma_small_mod((d + p) as nat, p as nat);
    }
    assert(1 * fsub(a, b) == fsub(a, b));
    vstd::arithmetic::div_mod::lemma_small_mod(fsub(a, b) as nat, p as nat);
}

/// On transitions the kept columns are those whose values agree.
pub proof fn lemma_kept(w: WindowVals, skip: spec_fn(int) -> bool, n: nat)
    requires
        w.trans == 1,
        forall|i: int| 0 <= i < n ==> canonical(#[trigger] w.curr[i]),
        forall|i: int| 0 <= i < n ==> canonical(#[trigger] w.next[i]),
    ensures
        all_zero(kept_constraints(w, skip, n)) <==> forall|i: int|
            0 <= i < n && !skip(i) ==> #[trigger] w.next[i] == w.curr[i],
    decreases n,
{
    if n > 0 {
        let m = (n - 1) as nat;
        lemma_kept(w, skip, m);
        assert(canonical(w.curr[m as int]) && canonical(w.next[m as int]));
        lemma_difference(w.next[m as int], w.curr[m as int]);
        if !skip(m as int) {
            let last = fmul(w.trans, fsub(w.next[m as int], w.curr[m as int]));
            let k = kept_constraints(w, skip, n);
            assert(k == kept_constraints(w, skip, m).push(last));
            assert(k =~= kept_constraints(w, skip, m) + seq![last]);
            lemma_all_zero_concat(kept_constraints(w, skip, m), seq![last]);
            assert(seq![last][0] == last);
            if last == 0 {
                assert(all_zero(seq![last]));
            }
        }
    }
}

/// A transition satisfies the system exactly when both children are accepted, the kinds are
/// bits, an aggregation child's row accepts its own children, and every other cell stays.
pub proof fn lemma_recursive_air_exact(w: WindowVals)
    requires
        w.trans == 1,
        forall|i: int| 0 <= i < 330 ==> canonical(#[trigger] w.curr[i]),
        forall|i: int| 0 <= i < 330 ==> canonical(#[trigger] w.next[i]),
    ensures
        all_zero(RecursiveAggregationAir::constraints(w)) <==> {
            &&& w.curr[64] == 1 && w.curr[65] == 1
            &&& w.curr[328] == 1 && w.curr[329] == 1
            &&& fbit(w.curr[130]) == 0 && fbit(w.curr[131]) == 0
            &&& fmul(w.curr[130], fsub(w.curr[260], 1)) == 0
            &&& fmul(w.curr[130], fsub(w.curr[261], 1)) == 0
            &&& fmul(w.curr[131], fsub(w.curr[326], 1)) == 0
            &&& fmul(w.curr[131], fsub(w.curr[327], 1)) == 0
            &&& forall|i: int|
                0 <= i < 330 && !rec_flag(i) ==> #[trigger] w.next[i] == w.curr[i]
        },
{
    let head = RecursiveAggregationAir::flag_constraints(w);
    let skip = |c: int| rec_flag(c);
    let tail = kept_constraints(w, skip, 330);
    lemma_all_zero_concat(head, tail);
    lemma_kept(w, skip, 330);
    assert(canonical(w.curr[64]) && canonical(w.curr[65]));
    assert(canonical(w.curr[328]) && canonical(w.curr[329]));
    lemma_difference(w.curr[64], 1);
    lemma_difference(w.curr[65], 1);
    lemma_difference(w.curr[328], 1);
    lemma_difference(w.curr[329], 1);
    lemma_one_times(fbit(w.curr[130]));
    lemma_one_times(fbit(w.curr[131]));
    lemma_one_times(fmul(w.curr[130], fsub(w.curr[260], 1)));
    lemma_one_times(fmul(w.curr[130], fsub(w.curr[261], 1)));
    lemma_one_times(fmul(w.curr[131], fsub(w.curr[326], 1)));
    lemma_one_times(fmul(w.curr[131], fsub(w.curr[327], 1)));
    assert(head.len() == 10);
    if all_zero(head) {
        assert(head[0] == 0 && head[1] == 0 && head[2] == 0 && head[3] == 0 && head[4] == 0);
        assert(head[5] == 0 && head[6] == 0 && head[7] == 0 && head[8] == 0 && head[9] == 0);
    }
}

/// One is neutral for canonical values.
pub proof fn lemma_one_times(x: int)
    requires
        canonical(x),
    ensures
        fmul(1, x) == x,
{
    assert(1 * x == x);
    vstd::arithmetic::div_mod::lemma_small_mod(x as nat, crate::field::P as nat);
}

} // verus!
