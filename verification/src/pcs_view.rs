//! The parts of a proof that the library reads, as plain values.
//!
//! Commitments are lists of 32-byte roots; opening proofs are lists of sibling digests.
use vstd::prelude::*;

use crate::ext::Challenge;
use crate::field::Val;

verus! {

/// The rows of one commitment opened at a query, with their path.
#[derive(Debug, Clone, PartialEq, Eq)]
pub struct BatchOpeningView {
    pub opened_values: Vec<Vec<Val>>,
    pub opening_proof: Vec<[u8; 32]>,
}

/// The input openings of one query: trace and quotient batches and the first layer.
#[derive(Debug, Clone, PartialEq, Eq)]
pub struct CircleInputProofView {
    pub input_openings: Vec<BatchOpeningView>,
    pub first_layer_siblings: Vec<Challenge>,
    pub first_layer_proof: Vec<[u8; 32]>,
}

/// One commit-phase round of a query.
#[derive(Debug, Clone, PartialEq, Eq)]
pub struct CommitPhaseStepView {
    pub log_arity: u8,
    pub sibling_values: Vec<Challenge>,
    pub opening_proof: Vec<[u8; 32]>,
}

/// One query.
#[derive(Debug, Clone, PartialEq, Eq)]
pub struct QueryProofView {
    pub input_proof: CircleInputProofView,
    pub commit_phase_openings: Vec<CommitPhaseStepView>,
}

/// The folding part of a proof.
#[derive(Debug, Clone, PartialEq, Eq)]
pub struct FriProofView {
    pub commit_phase_commits: Vec<Vec<[u8; 32]>>,
    pub commit_pow_witnesses: Vec<Val>,
    pub query_proofs: Vec<QueryProofView>,
    pub final_poly: Challenge,
    pub pow_witness: Val,
}

/// The opening proof.
#[derive(Debug, Clone, PartialEq, Eq)]
pub struct CirclePcsProofView {
    pub first_layer_commitment: Vec<[u8; 32]>,
    pub lambdas: Vec<Challenge>,
    pub fri_proof: FriProofView,
}

/// A proof.
#[derive(Debug, Clone, PartialEq, Eq)]
pub struct StarkProofView {
    pub degree_bits: usize,
    pub trace_commitment: Vec<[u8; 32]>,
    pub quotient_commitment: Vec<[u8; 32]>,
    /// Whether the proof carries a commitment to, or openings of, a random polynomial.
    pub randomized: bool,
    /// Whether the proof carries openings of preprocessed columns.
    pub preprocessed: bool,
    pub trace_local: Vec<Challenge>,
    pub trace_next: Option<Vec<Challenge>>,
    pub quotient_chunks: Vec<Vec<Challenge>>,
    pub opening_proof: CirclePcsProofView,
}

/// The folding parameters a proof was made with.
#[derive(Debug, Clone, Copy, PartialEq, Eq)]
pub struct FriParamsView {
    pub log_blowup: usize,
    pub max_log_arity: usize,
    pub commit_proof_of_work_bits: usize,
    pub query_proof_of_work_bits: usize,
}

} // verus!
