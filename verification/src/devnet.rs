//! Parameters of the proof system the certificates are made with.
use vstd::prelude::*;

verus! {

/// The largest number of queries a proof may hold.
pub const DEVNET_FRI_NUM_QUERIES: usize = 40;

} // verus!
