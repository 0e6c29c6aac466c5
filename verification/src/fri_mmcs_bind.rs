//! All Merkle paths of a proof's queries.
use vstd::prelude::*;

use crate::agg_constraints::AGG_WIDTH;
use crate::chal_mmcs::{
    bind_fri_chal_mmcs_bundle_width, chal_bind_outcome, chal_proof_outcome,
    fri_chal_mmcs_bundle_from_proof, fri_chal_mmcs_bundle_from_proof_drop_nested, rounds_fit,
    ChalMmcsError, FriChalMmcsQueryProof,
};
use crate::fri_fs_replay::params_ok;
use crate::pcs_view::{FriParamsView, StarkProofView};
use crate::val_mmcs::{
    bind_fri_val_mmcs_bundle_width, fri_val_mmcs_bundle_from_proof,
    fri_val_mmcs_bundle_from_proof_drop_nested, val_bind_outcome, val_proof_outcome,
    FriValMmcsQueryProof, ValMmcsError,
};

verus! {

/// The paths of every query.
#[derive(Debug, Clone)]
pub struct AggFriMmcsBundle {
    pub val: Vec<FriValMmcsQueryProof>,
    pub chal: Vec<FriChalMmcsQueryProof>,
}

/// Why paths were not recorded, or do not belong to a proof.
#[derive(Debug, Clone, PartialEq, Eq)]
pub enum MmcsError {
    Val(ValMmcsError),
    Chal(ChalMmcsError),
}

/// What recording the paths of a proof returns.
pub open spec fn mmcs_bundle_outcome(
    proof: StarkProofView,
    width: usize,
    params: FriParamsView,
    r: Result<AggFriMmcsBundle, MmcsError>,
) -> bool {
    match r {
        Ok(b) => val_proof_outcome(proof, width, params, Ok(b.val)) && chal_proof_outcome(
            proof,
            width,
            params,
            Ok(b.chal),
        ),
        Err(MmcsError::Val(e)) => val_proof_outcome(proof, width, params, Err(e)),
        Err(MmcsError::Chal(e)) => chal_proof_outcome(proof, width, params, Err(e)) && exists|
            v: Vec<FriValMmcsQueryProof>,
        | #[trigger] val_proof_outcome(proof, width, params, Ok(v)),
    }
}

/// What checking that the paths of a bundle belong to a proof returns.
pub open spec fn mmcs_bind_outcome(
    proof: StarkProofView,
    width: usize,
    params: FriParamsView,
    bundle: AggFriMmcsBundle,
    r: Result<(), MmcsError>,
) -> bool {
    match r {
        Ok(_) => val_bind_outcome(proof, width, params, bundle.val@, Ok(())) && chal_bind_outcome(
            proof,
            width,
            params,
            bundle.chal@,
            Ok(()),
        ),
        Err(MmcsError::Val(e)) => val_bind_outcome(proof, width, params, bundle.val@, Err(e)),
        Err(MmcsError::Chal(e)) => val_bind_outcome(proof, width, params, bundle.val@, Ok(()))
            && chal_bind_outcome(proof, width, params, bundle.chal@, Err(e)),
    }
}

/// Records the trace and quotient paths of an aggregation proof.
pub fn fri_val_mmcs_bundle_from_agg_proof(proof: &StarkProofView, params: &FriParamsView) -> (r:
    Result<Vec<FriValMmcsQueryProof>, ValMmcsError>)
    requires
        params_ok(*params),
        rounds_fit(proof.opening_proof, params.log_blowup),
    ensures
        val_proof_outcome(*proof, AGG_WIDTH, *params, r),
{
    fri_val_mmcs_bundle_from_proof(proof, AGG_WIDTH, params)
}

/// Checks that trace and quotient paths belong to an aggregation proof.
pub fn bind_fri_val_mmcs_bundle(
    proof: &StarkProofView,
    bundle: &[FriValMmcsQueryProof],
    params: &FriParamsView,
) -> (r: Result<(), ValMmcsError>)
    requires
        params_ok(*params),
        rounds_fit(proof.opening_proof, params.log_blowup),
    ensures
        val_bind_outcome(*proof, AGG_WIDTH, *params, bundle@, r),
{
    bind_fri_val_mmcs_bundle_width(proof, bundle, AGG_WIDTH, params)
}

/// Records the first-layer and commit-phase paths of an aggregation proof.
pub fn fri_chal_mmcs_bundle_from_agg_proof(proof: &StarkProofView, params: &FriParamsView) -> (r:
    Result<Vec<FriChalMmcsQueryProof>, ChalMmcsError>)
    requires
        params_ok(*params),
        rounds_fit(proof.opening_proof, params.log_blowup),
    ensures
        chal_proof_outcome(*proof, AGG_WIDTH, *params, r),
{
    fri_chal_mmcs_bundle_from_proof(proof, AGG_WIDTH, params)
}

/// Checks that first-layer and commit-phase paths belong to an aggregation proof.
pub fn bind_fri_chal_mmcs_bundle(
    proof: &StarkProofView,
    bundle: &[FriChalMmcsQueryProof],
    params: &FriParamsView,
) -> (r: Result<(), ChalMmcsError>)
    requires
        params_ok(*params),
        rounds_fit(proof.opening_proof, params.log_blowup),
    ensures
        chal_bind_outcome(*proof, AGG_WIDTH, *params, bundle@, r),
{
    bind_fri_chal_mmcs_bundle_width(proof, bundle, AGG_WIDTH, params)
}

/// Records all paths of a proof.
pub fn fri_mmcs_bundle_from_proof(
    proof: &StarkProofView,
    trace_width: usize,
    params: &FriParamsView,
) -> (r: Result<AggFriMmcsBundle, MmcsError>)
    requires
        params_ok(*params),
        rounds_fit(proof.opening_proof, params.log_blowup),
    ensures
        mmcs_bundle_outcome(*proof, trace_width, *params, r),
{
    let val = match fri_val_mmcs_bundle_from_proof(proof, trace_width, params) {
        Ok(v) => v,
        Err(e) => {
            return Err(MmcsError::Val(e));
        },
    };
    match fri_chal_mmcs_bundle_from_proof(proof, trace_width, params) {
        Ok(chal) => Ok(AggFriMmcsBundle { val, chal }),
        Err(e) => {
            proof {
                assert(val_proof_outcome(*proof, trace_width, *params, Ok(val)));
            }
            Err(MmcsError::Chal(e))
        },
    }
}

/// As [`fri_mmcs_bundle_from_proof`], without nested proof bytes.
pub fn fri_mmcs_bundle_from_proof_drop_nested(
    proof: &StarkProofView,
    trace_width: usize,
    params: &FriParamsView,
) -> (r: Result<AggFriMmcsBundle, MmcsError>)
    requires
        params_ok(*params),
        rounds_fit(proof.opening_proof, params.log_blowup),
    ensures
        mmcs_bundle_outcome(*proof, trace_width, *params, r),
{
    let val = match fri_val_mmcs_bundle_from_proof_drop_nested(proof, trace_width, params) {
        Ok(v) => v,
        Err(e) => {
            return Err(MmcsError::Val(e));
        },
    };
    match fri_chal_mmcs_bundle_from_proof_drop_nested(proof, trace_width, params) {
        Ok(chal) => Ok(AggFriMmcsBundle { val, chal }),
        Err(e) => {
            proof {
                assert(val_proof_outcome(*proof, trace_width, *params, Ok(val)));
            }
            Err(MmcsError::Chal(e))
        },
    }
}

/// Records all paths of an aggregation proof.
pub fn fri_mmcs_bundle_from_agg_proof(proof: &StarkProofView, params: &FriParamsView) -> (r: Result<
    AggFriMmcsBundle,
    MmcsError,
>)
    requires
        params_ok(*params),
        rounds_fit(proof.opening_proof, params.log_blowup),
    ensures
        mmcs_bundle_outcome(*proof, AGG_WIDTH, *params, r),
{
    fri_mmcs_bundle_from_proof(proof, AGG_WIDTH, params)
}

/// As [`fri_mmcs_bundle_from_agg_proof`], without nested proof bytes.
pub fn fri_mmcs_bundle_from_agg_proof_drop_nested(
    proof: &StarkProofView,
    params: &FriParamsView,
) -> (r: Result<AggFriMmcsBundle, MmcsError>)
    requires
        params_ok(*params),
        rounds_fit(proof.opening_proof, params.log_blowup),
    ensures
        mmcs_bundle_outcome(*proof, AGG_WIDTH, *params, r),
{
    fri_mmcs_bundle_from_proof_drop_nested(proof, AGG_WIDTH, params)
}

/// Checks that all paths of a bundle belong to a proof.
pub fn bind_fri_mmcs_bundle_to_proof_width(
    proof: &StarkProofView,
    bundle: &AggFriMmcsBundle,
    trace_width: usize,
    params: &FriParamsView,
) -> (r: Result<(), MmcsError>)
    requires
        params_ok(*params),
        rounds_fit(proof.opening_proof, params.log_blowup),
    ensures
        mmcs_bind_outcome(*proof, trace_width, *params, *bundle, r),
{
    match bind_fri_val_mmcs_bundle_width(proof, bundle.val.as_slice(), trace_width, params) {
        Ok(()) => {},
        Err(e) => {
            return Err(MmcsError::Val(e));
        },
    }
    match bind_fri_chal_mmcs_bundle_width(proof, bundle.chal.as_slice(), trace_width, params) {
        Ok(()) => Ok(()),
        Err(e) => Err(MmcsError::Chal(e)),
    }
}

/// Checks that all paths of a bundle belong to an aggregation proof.
pub fn bind_fri_mmcs_bundle_to_proof(
    proof: &StarkProofView,
    bundle: &AggFriMmcsBundle,
    params: &FriParamsView,
) -> (r: Result<(), MmcsError>)
    requires
        params_ok(*params),
        rounds_fit(proof.opening_proof, params.log_blowup),
    ensures
        mmcs_bind_outcome(*proof, AGG_WIDTH, *params, *bundle, r),
{
    bind_fri_mmcs_bundle_to_proof_width(proof, bundle, AGG_WIDTH, params)
}

} // verus!
