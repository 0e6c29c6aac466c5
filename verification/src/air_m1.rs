//! The first recursive aggregation system, of digests and kinds alone.
use vstd::prelude::*;

use crate::air::{kept_constraints, lemma_difference, lemma_kept};
use crate::constraint::{all_zero, fbit, lemma_all_zero_concat, ConstraintSink, Expr, Window, WindowVals};
use crate::field::{canonical, fmul, fsub};

verus! {

pub const REC_AGG_M1_WIDTH: usize = 132;

pub const REC_M1_LEFT_OK_COL: usize = 64;

pub const REC_M1_RIGHT_OK_COL: usize = 65;

pub const REC_M1_LEFT_KIND_COL: usize = 130;

pub const REC_M1_RIGHT_KIND_COL: usize = 131;

/// The system of digests and kinds.
#[derive(Copy, Clone, Debug)]
pub struct RecursiveAggregationAirM1;

/// The columns of acceptance flags.
pub open spec fn m1_flag(col: int) -> bool {
    col == 64 || col == 65
}

impl RecursiveAggregationAirM1 {
    /// Flags are one and kinds are bits.
    pub open spec fn flag_constraints(w: WindowVals) -> Seq<int> {
        seq![
            fmul(w.trans, fsub(w.curr[64], 1)),
            fmul(w.trans, fsub(w.curr[65], 1)),
            fmul(w.trans, fbit(w.curr[130])),
            fmul(w.trans, fbit(w.curr[131])),
        ]
    }

    pub open spec fn constraints(w: WindowVals) -> Seq<int> {
        Self::flag_constraints(w) + kept_constraints(w, |c: int| m1_flag(c), 132)
    }

    /// Number of columns.
    pub fn width(&self) -> (r: usize)
        ensures
            r == REC_AGG_M1_WIDTH,
    {
        REC_AGG_M1_WIDTH
    }

    /// Highest degree of a constraint beside the transition selector.
    pub fn max_constraint_degree(&self) -> (r: Option<usize>)
        ensures
            r == Some(2usize),
    {
        Some(2)
    }

    /// Emits the constraints of a row pair.
    pub fn eval<S: ConstraintSink>(&self, sink: &mut S, w: &Window<S::E>)
        requires
            w.curr@.len() == REC_AGG_M1_WIDTH,
            w.next@.len() == REC_AGG_M1_WIDTH,
        ensures
            final(sink).emitted() == old(sink).emitted() + Self::constraints(w@),
    {
        let ghost base = sink.emitted();
        let one = <S::E as Expr>::lit(1);
        let lk = &w.curr[REC_M1_LEFT_KIND_COL];
        let rk = &w.curr[REC_M1_RIGHT_KIND_COL];
        sink.assert_zero(w.trans.times(&w.curr[REC_M1_LEFT_OK_COL].minus(&one)));
        sink.assert_zero(w.trans.times(&w.curr[REC_M1_RIGHT_OK_COL].minus(&one)));
        sink.assert_zero(w.trans.times(&lk.times(&lk.minus(&one))));
        sink.assert_zero(w.trans.times(&rk.times(&rk.minus(&one))));
        let ghost skip = |c: int| m1_flag(c);
        proof {
            assert(sink.emitted() =~= base + Self::flag_constraints(w@));
        }
        let ghost head = sink.emitted();
        proof {
            assert(head =~= head + kept_constraints(w@, skip, 0));
        }
        let mut col: usize = 0;
        while col < REC_AGG_M1_WIDTH
            invariant
                col <= REC_AGG_M1_WIDTH,
                w.curr@.len() == REC_AGG_M1_WIDTH,
                w.next@.len() == REC_AGG_M1_WIDTH,
                skip == (|c: int| m1_flag(c)),
                sink.emitted() == head + kept_constraints(w@, skip, col as nat),
            decreases REC_AGG_M1_WIDTH - col,
        {
            if col != REC_M1_LEFT_OK_COL && col != REC_M1_RIGHT_OK_COL {
                sink.assert_zero(w.trans.times(&w.next[col].minus(&w.curr[col])));
                proof {
                    let k = kept_constraints(w@, skip, (col + 1) as nat);
                    assert(k == kept_constraints(w@, skip, col as nat).push(
                        fmul(w@.trans, fsub(w@.next[col as int], w@.curr[col as int])),
                    ));
                    assert(sink.emitted() =~= head + k);
                }
            } else {
                proof {
                    assert(skip(col as int));
                    assert(kept_constraints(w@, skip, (col + 1) as nat) == kept_constraints(
                        w@,
                        skip,
                        col as nat,
                    ));
                }
            }
            col += 1;
        }
        proof {
            assert(sink.emitted() =~= base + Self::constraints(w@));
        }
    }
}

/// A transition satisfies the system exactly when both children are accepted, the kinds are
/// bits, and every other cell stays.
pub proof fn lemma_m1_air_exact(w: WindowVals)
    requires
        w.trans == 1,
        forall|i: int| 0 <= i < 132 ==> canonical(#[trigger] w.curr[i]),
        forall|i: int| 0 <= i < 132 ==> canonical(#[trigger] w.next[i]),
    ensures
        all_zero(RecursiveAggregationAirM1::constraints(w)) <==> {
            &&& w.curr[64] == 1 && w.curr[65] == 1
            &&& fbit(w.curr[130]) == 0 && fbit(w.curr[131]) == 0
            &&& forall|i: int| 0 <= i < 132 && !m1_flag(i) ==> #[trigger] w.next[i] == w.curr[i]
        },
{
    let head = RecursiveAggregationAirM1::flag_constraints(w);
    let skip = |c: int| m1_flag(c);
    lemma_all_zero_concat(head, kept_constraints(w, skip, 132));
    lemma_kept(w, skip, 132);
    assert(canonical(w.curr[64]) && canonical(w.curr[65]));
    lemma_difference(w.curr[64], 1);
    lemma_difference(w.curr[65], 1);
    crate::air::lemma_one_times(fbit(w.curr[130]));
    crate::air::lemma_one_times(fbit(w.curr[131]));
    assert(head.len() == 4);
    if all_zero(head) {
        assert(head[0] == 0 && head[1] == 0 && head[2] == 0 && head[3] == 0);
    }
}

} // verus!
