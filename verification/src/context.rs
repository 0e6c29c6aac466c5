//! What a recursive aggregation proof is bound to.
use vstd::prelude::*;

verus! {

/// The public binding of a recursive aggregation proof.
#[derive(Debug, Clone, PartialEq, Eq)]
pub struct RecursiveAggregationContext<'a> {
    pub parent_task_id: &'a str,
    pub compose_label: &'a str,
    pub manifest_root_hash: &'a str,
    pub left_child_hash: [u8; 32],
    pub right_child_hash: [u8; 32],
    pub left_stark_digest: [u8; 32],
    pub right_stark_digest: [u8; 32],
    pub left_kind: u8,
    pub right_kind: u8,
}

} // verus!
