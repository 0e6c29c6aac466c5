//! Row constraints of the aggregation trace.
use vstd::prelude::*;

use crate::field::{vals, Val};

verus! {

/// Columns of the aggregation trace: two 32-byte child hashes and two acceptance flags.
pub const AGG_WIDTH: usize = 66;

/// Acceptance flag of the left child.
pub const AGG_LEFT_OK_COL: usize = 64;

/// Acceptance flag of the right child.
pub const AGG_RIGHT_OK_COL: usize = 65;

/// Two rows of an aggregation trace: both children are accepted, and the hashes stay.
pub open spec fn agg_rows_ok(row0: Seq<int>, row1: Seq<int>) -> bool {
    &&& row0.len() == AGG_WIDTH
    &&& row1.len() == AGG_WIDTH
    &&& row0[64] == 1
    &&& row0[65] == 1
    &&& row1[64] == 1
    &&& row1[65] == 1
    &&& forall|i: int| 0 <= i < 64 ==> #[trigger] row0[i] == row1[i]
}

/// Whether two rows satisfy the aggregation constraints.
pub fn aggregation_air_constraints_hold(row0: &[Val], row1: &[Val]) -> (r: bool)
    ensures
        r == agg_rows_ok(vals(row0@), vals(row1@)),
{
    if row0.len() != AGG_WIDTH || row1.len() != AGG_WIDTH {
        return false;
    }
    let one = Val::one();
    if !row0[AGG_LEFT_OK_COL].same(&one) || !row0[AGG_RIGHT_OK_COL].same(&one) {
        return false;
    }
    if !row1[AGG_LEFT_OK_COL].same(&one) || !row1[AGG_RIGHT_OK_COL].same(&one) {
        return false;
    }
    let mut col: usize = 0;
    while col < 64
        invariant
            col <= 64,
            row0@.len() == AGG_WIDTH,
            row1@.len() == AGG_WIDTH,
            forall|i: int| 0 <= i < col ==> #[trigger] vals(row0@)[i] == vals(row1@)[i],
        decreases 64 - col,
    {
        if !row0[col].same(&row1[col]) {
            proof {
                assert(vals(row0@)[col as int] != vals(row1@)[col as int]);
            }
            return false;
        }
        col += 1;
    }
    true
}

} // verus!
