//! Trace and quotient openings of a proof's queries, recorded as paths and checked again.
use vstd::prelude::*;

use crate::batch_path::{
    batch_outcome, generate_chal_batch_path, generate_chal_batch_path_drop_nested, row_views,
    verify_chal_batch_path_replay, Batch, BatchError, Dimensions, FriChalBatchPathProof,
};
use crate::bits::{exp2, is_pow2, lemma_exp2_monotone, log2_strict, pow2_usize, shift_right};
use crate::checks::{checked, first_some, lemma_first_some_none, lemma_first_some_stops};
use crate::circle::lemma_exp2_30;
use crate::domains::{
    chunk_log_size, has_quotient_domain, quotient_chunk_logs, quotient_domain_fits,
};
use crate::field::{vals, Val};
use crate::fri_fs_replay::{
    fri_queries_from_proof, is_replay, params_ok, query_count_ok, replay_fri_challenges,
    replay_report, AggFriChallenges, ReplayError,
};
use crate::fri_mmcs_path::{
    generate_fri_mmcs_path_proof, generate_fri_mmcs_path_proof_drop_nested, is_path_record,
    path_fault, path_record_valid, verify_fri_mmcs_path_proof, FriMmcsPathProof, PathError,
};
use crate::fri_ro::RoInput;
use crate::merkle::{copy_digests, same_digests};
use crate::merkle_keccak::{hash_val_leaf, merkle_root_from_path};
use crate::pcs_view::{FriParamsView, StarkProofView};

verus! {

/// Coordinates of an extension element.
pub const EF_DIM: usize = 3;

/// The trace and quotient paths of one query.
#[derive(Debug, Clone, PartialEq, Eq)]
pub struct FriValMmcsQueryProof {
    pub trace_index: u32,
    pub quot_index: u32,
    pub trace_siblings: Vec<[u8; 32]>,
    pub quot_siblings: Vec<[u8; 32]>,
    pub trace_path: FriMmcsPathProof,
    /// The quotient path; of the first chunk alone, under a zero sibling, where there are several.
    pub quot_path: FriMmcsPathProof,
    /// The quotient path of several chunks.
    pub quot_batch: Option<FriChalBatchPathProof>,
}

/// Why trace and quotient paths were not recorded, or do not belong to a proof.
#[derive(Debug, Clone, PartialEq, Eq)]
pub enum ValMmcsError {
    Replay(ReplayError),
    /// The number of records is not that of the queries.
    Length(usize),
    TraceRoot,
    QuotientRoot,
    ChunkCount(usize),
    /// The trace domain or a quotient domain is larger than the field has.
    Domain,
    /// A codeword is higher than the tallest one.
    Height,
    MissingIndex(usize),
    InputBatches(usize),
    EmptyTrace(usize),
    TraceWidth(usize),
    EmptyQuotient(usize),
    QuotientMatrices(usize),
    QuotientWidth(usize),
    TracePath(usize, PathError),
    QuotientPath(usize, PathError),
    QuotientBatch(usize, BatchError),
    TraceIndex(usize),
    QuotientIndex(usize),
    Siblings(usize),
    TraceCheck(usize),
    QuotientCheck(usize),
    BatchCheck(usize),
}

/// What query `q` of a proof reads.
pub open spec fn query_of(proof: StarkProofView, chal: AggFriChallenges, q: int) -> RoInput {
    RoInput { proof, chal, view: proof.opening_proof, query: q }
}

/// Why no trace and quotient positions can be had, if so.
pub open spec fn val_shape_report(proof: StarkProofView, chal: AggFriChallenges) -> Option<
    ValMmcsError,
> {
    let ri = query_of(proof, chal, 0);
    if proof.trace_commitment@.len() == 0 {
        Some(ValMmcsError::TraceRoot)
    } else if proof.quotient_commitment@.len() == 0 {
        Some(ValMmcsError::QuotientRoot)
    } else if !is_pow2(ri.chunks()) {
        Some(ValMmcsError::ChunkCount(ri.chunks() as usize))
    } else if !quotient_domain_fits(proof.degree_bits as nat, ri.chunks()) {
        Some(ValMmcsError::Domain)
    } else if ri.trace_height() > ri.log_max_height() || ri.quotient_height()
        > ri.log_max_height() || (ri.chunks() > 1 && ri.quotient_height() > 30) {
        Some(ValMmcsError::Height)
    } else {
        None
    }
}

/// Why the trace row of a query cannot be read, if so.
pub open spec fn trace_row_report(ri: RoInput, width: usize) -> Option<ValMmcsError> {
    let q = ri.query as usize;
    if ri.query >= ri.chal.query_indices@.len() {
        Some(ValMmcsError::MissingIndex(q))
    } else if ri.input().input_openings@.len() < 2 {
        Some(ValMmcsError::InputBatches(q))
    } else if ri.input().input_openings@[0].opened_values@.len() == 0 {
        Some(ValMmcsError::EmptyTrace(q))
    } else if ri.trace_row().len() != width {
        Some(ValMmcsError::TraceWidth(q))
    } else {
        None
    }
}

/// The siblings of a query's trace row.
pub open spec fn trace_siblings(ri: RoInput) -> Seq<[u8; 32]> {
    ri.input().input_openings@[0].opening_proof@
}

/// The siblings of a query's quotient rows.
pub open spec fn quotient_siblings(ri: RoInput) -> Seq<[u8; 32]> {
    ri.input().input_openings@[1].opening_proof@
}

/// A query's position in the trace codeword.
pub open spec fn trace_position(ri: RoInput) -> int {
    ri.index_at(ri.trace_height())
}

/// A query's position in the quotient codewords.
pub open spec fn quotient_position(ri: RoInput) -> int {
    ri.index_at(ri.quotient_height())
}

/// The shapes of the quotient chunks.
pub open spec fn quotient_dims(ri: RoInput) -> Seq<Dimensions> {
    Seq::new(
        ri.chunks() as nat,
        |i: int|
            Dimensions {
                width: EF_DIM,
                height: exp2(ri.quotient_height() as nat) as usize,
            },
    )
}

/// The quotient opening of a query with the given siblings.
pub open spec fn quotient_batch(ri: RoInput, siblings: Seq<[u8; 32]>) -> Batch {
    Batch {
        rows: row_views(ri.input().input_openings@[1].opened_values@),
        dims: quotient_dims(ri),
        siblings,
        index: quotient_position(ri),
    }
}

/// Why the paths of a query cannot be recorded, if so.
pub open spec fn val_query_report(ri: RoInput, width: usize) -> Option<ValMmcsError> {
    let q = ri.query as usize;
    let trace_root = ri.proof.trace_commitment@[0]@;
    let quot_root = ri.proof.quotient_commitment@[0]@;
    let trace = path_fault(
        vals(ri.trace_row()),
        trace_siblings(ri),
        trace_position(ri),
        trace_root,
    );
    let quot = path_fault(
        vals(ri.chunk_row(0)),
        quotient_siblings(ri),
        quotient_position(ri),
        quot_root,
    );
    let batch = quotient_batch(ri, quotient_siblings(ri)).report(quot_root);
    if trace_row_report(ri, width) is Some {
        trace_row_report(ri, width)
    } else if ri.input().input_openings@[1].opened_values@.len() != ri.chunks() {
        Some(ValMmcsError::QuotientMatrices(q))
    } else if trace is Some {
        Some(ValMmcsError::TracePath(q, trace->0))
    } else if ri.chunks() == 1 {
        if ri.chunk_row(0).len() != EF_DIM {
            Some(ValMmcsError::QuotientWidth(q))
        } else if quot is Some {
            Some(ValMmcsError::QuotientPath(q, quot->0))
        } else {
            None
        }
    } else if batch is Some {
        Some(ValMmcsError::QuotientBatch(q, batch->0))
    } else {
        None
    }
}

/// `p` records the path of a row under one zero sibling.
pub open spec fn is_stub_path(p: FriMmcsPathProof, row: Seq<int>) -> bool {
    exists|sib: [u8; 32]| #[trigger]
        sib@ == Seq::new(32, |i: int| 0u8) && is_path_record(p, row, seq![sib], 0)
}

/// `p` records the paths of a query.
pub open spec fn is_val_record(ri: RoInput, p: FriValMmcsQueryProof) -> bool {
    &&& p.trace_index == trace_position(ri) as u32
    &&& p.quot_index == quotient_position(ri) as u32
    &&& p.trace_siblings@ == trace_siblings(ri)
    &&& p.quot_siblings@ == quotient_siblings(ri)
    &&& is_path_record(
        p.trace_path,
        vals(ri.trace_row()),
        trace_siblings(ri),
        trace_position(ri),
    )
    &&& if ri.chunks() == 1 {
        &&& p.quot_batch is None
        &&& is_path_record(
            p.quot_path,
            vals(ri.chunk_row(0)),
            quotient_siblings(ri),
            quotient_position(ri),
        )
    } else {
        &&& p.quot_batch matches Some(b)
        &&& quotient_batch(ri, quotient_siblings(ri)).is_record(b)
        &&& is_stub_path(p.quot_path, vals(ri.chunk_row(0)))
    }
}

/// What recording the paths of all queries returns, given the challenges.
pub open spec fn val_bundle_outcome(
    proof: StarkProofView,
    chal: AggFriChallenges,
    width: usize,
    r: Result<Vec<FriValMmcsQueryProof>, ValMmcsError>,
) -> bool {
    let n = proof.opening_proof.fri_proof.query_proofs@.len();
    let queries = first_some(n, |q: int| val_query_report(query_of(proof, chal, q), width));
    if val_shape_report(proof, chal) is Some {
        r == Err::<Vec<FriValMmcsQueryProof>, ValMmcsError>(val_shape_report(proof, chal)->0)
    } else if !query_count_ok(proof) {
        r == Err::<Vec<FriValMmcsQueryProof>, ValMmcsError>(
            ValMmcsError::Replay(ReplayError::QueryCount(n as usize)),
        )
    } else if queries is Some {
        r == Err::<Vec<FriValMmcsQueryProof>, ValMmcsError>(queries->0)
    } else {
        r matches Ok(v) && v@.len() == n && forall|q: int|
            0 <= q < n ==> is_val_record(query_of(proof, chal, q), #[trigger] v@[q])
    }
}

/// Positions and shapes that the queries of a proof share.
pub struct ValGeometry {
    pub trace_root: [u8; 32],
    pub quot_root: [u8; 32],
    /// By how much an index is shifted for the trace codeword.
    pub trace_shift: usize,
    pub quot_shift: usize,
    /// Whether the quotient height is one that a domain can have.
    pub has_dims: bool,
    pub dims: Vec<Dimensions>,
}

impl ValGeometry {
    pub open spec fn of(self, proof: StarkProofView, chal: AggFriChallenges) -> bool {
        let ri = query_of(proof, chal, 0);
        &&& val_shape_report(proof, chal) is None
        &&& self.trace_root == proof.trace_commitment@[0]
        &&& self.quot_root == proof.quotient_commitment@[0]
        &&& self.trace_shift == ri.log_max_height() - ri.trace_height()
        &&& self.quot_shift == ri.log_max_height() - ri.quotient_height()
        &&& self.has_dims == (ri.quotient_height() <= 30)
        &&& self.has_dims ==> self.dims@ == quotient_dims(ri)
    }
}

/// The positions and shapes that the queries of a proof share.
pub fn val_geometry(proof: &StarkProofView, chal: &AggFriChallenges) -> (r: Result<
    ValGeometry,
    ValMmcsError,
>)
    requires
        proof.opening_proof.fri_proof.commit_phase_commits@.len() + chal.log_blowup + 1
            <= usize::MAX,
    ensures
        match val_shape_report(*proof, *chal) {
            Some(e) => r == Err::<ValGeometry, ValMmcsError>(e),
            None => r matches Ok(g) && g.of(*proof, *chal),
        },
{
    let ghost ri = query_of(*proof, *chal, 0);
    if proof.trace_commitment.len() == 0 {
        return Err(ValMmcsError::TraceRoot);
    }
    if proof.quotient_commitment.len() == 0 {
        return Err(ValMmcsError::QuotientRoot);
    }
    let chunks: usize = proof.quotient_chunks.len();
    let log_chunks: usize = match log2_strict(chunks) {
        Some(k) => k,
        None => {
            return Err(ValMmcsError::ChunkCount(chunks));
        },
    };
    if !has_quotient_domain(proof.degree_bits, log_chunks, chunks) {
        return Err(ValMmcsError::Domain);
    }
    let logs = quotient_chunk_logs(proof.degree_bits, chunks);
    let above: usize = proof.opening_proof.fri_proof.commit_phase_commits.len() + 1;
    let quot_log: usize = logs[0];
    if proof.degree_bits > above || quot_log > above {
        return Err(ValMmcsError::Height);
    }
    let has_dims: bool = chal.log_blowup <= 30 && quot_log + chal.log_blowup <= 30;
    if chunks > 1 && !has_dims {
        return Err(ValMmcsError::Height);
    }
    let mut dims: Vec<Dimensions> = Vec::new();
    if has_dims {
        proof {
            lemma_exp2_monotone(ri.quotient_height() as nat, 30);
            lemma_exp2_30();
        }
        let mut i: usize = 0;
        while i < chunks
            invariant
                i <= chunks,
                chunks == ri.chunks(),
                logs@.len() == chunks,
                ri == query_of(*proof, *chal, 0),
                forall|j: int|
                    0 <= j < logs@.len() ==> (#[trigger] logs@[j]) == chunk_log_size(
                        proof.degree_bits as nat,
                        chunks as int,
                    ),
                chal.log_blowup <= 30,
                ri.quotient_height() <= 30,
                exp2(ri.quotient_height() as nat) <= usize::MAX,
                dims@ == quotient_dims(ri).take(i as int),
            decreases chunks - i,
        {
            dims.push(Dimensions { width: EF_DIM, height: pow2_usize(logs[i] + chal.log_blowup) });
            i += 1;
            proof {
                assert(dims@ =~= quotient_dims(ri).take(i as int));
            }
        }
        proof {
            assert(dims@ =~= quotient_dims(ri));
        }
    }
    Ok(
        ValGeometry {
            trace_root: proof.trace_commitment[0],
            quot_root: proof.quotient_commitment[0],
            trace_shift: above - proof.degree_bits,
            quot_shift: above - quot_log,
            has_dims,
            dims,
        },
    )
}

/// Records the path of a row.
pub(crate) fn record_path(
    row: &[Val],
    siblings: &[[u8; 32]],
    index: usize,
    root: &[u8; 32],
    drop_nested: bool,
) -> (r: Result<FriMmcsPathProof, PathError>)
    ensures
        crate::fri_mmcs_path::path_record_outcome(row@, siblings@, index as int, root@, r),
{
    if drop_nested {
        generate_fri_mmcs_path_proof_drop_nested(row, siblings, index, root)
    } else {
        generate_fri_mmcs_path_proof(row, siblings, index, root)
    }
}

/// Records the path of a batch opening.
pub(crate) fn record_batch(
    rows: &[Vec<Val>],
    dims: &[Dimensions],
    index: usize,
    siblings: &[[u8; 32]],
    root: &[u8; 32],
    drop_nested: bool,
) -> (r: Result<FriChalBatchPathProof, BatchError>)
    ensures
        batch_outcome(
            (Batch {
                rows: row_views(rows@),
                dims: dims@,
                siblings: siblings@,
                index: index as int,
            }),
            root@,
            r,
        ),
{
    if drop_nested {
        generate_chal_batch_path_drop_nested(rows, dims, index, siblings, root)
    } else {
        generate_chal_batch_path(rows, dims, index, siblings, root)
    }
}

/// A path of a row under one zero sibling.
fn record_stub(row: &[Val], drop_nested: bool) -> (r: FriMmcsPathProof)
    ensures
        is_stub_path(r, vals(row@)),
{
    let zero: [u8; 32] = [0u8; 32];
    let mut sib: Vec<[u8; 32]> = Vec::new();
    sib.push(zero);
    proof {
        assert(sib@ =~= seq![zero]);
        assert(zero@ =~= Seq::new(32, |i: int| 0u8));
    }
    let leaf = hash_val_leaf(row);
    let root = merkle_root_from_path(leaf, sib.as_slice(), 0);
    record_path(row, sib.as_slice(), 0, &root, drop_nested).unwrap()
}

/// Records the paths of one query.
fn val_query_record(
    proof: &StarkProofView,
    chal: &AggFriChallenges,
    geo: &ValGeometry,
    q: usize,
    width: usize,
    drop_nested: bool,
) -> (r: Result<FriValMmcsQueryProof, ValMmcsError>)
    requires
        geo.of(*proof, *chal),
        q < proof.opening_proof.fri_proof.query_proofs@.len(),
    ensures
        ({
            let ri = query_of(*proof, *chal, q as int);
            match val_query_report(ri, width) {
                Some(e) => r == Err::<FriValMmcsQueryProof, ValMmcsError>(e),
                None => r matches Ok(p) && is_val_record(ri, p),
            }
        }),
{
    let ghost ri = query_of(*proof, *chal, q as int);
    if q >= chal.query_indices.len() {
        return Err(ValMmcsError::MissingIndex(q));
    }
    let query_index: usize = chal.query_indices[q];
    let input = &proof.opening_proof.fri_proof.query_proofs[q].input_proof;
    if input.input_openings.len() < 2 {
        return Err(ValMmcsError::InputBatches(q));
    }
    let trace_open = &input.input_openings[0];
    let quot_open = &input.input_openings[1];
    if trace_open.opened_values.len() == 0 {
        return Err(ValMmcsError::EmptyTrace(q));
    }
    let trace_row: &Vec<Val> = &trace_open.opened_values[0];
    if trace_row.len() != width {
        return Err(ValMmcsError::TraceWidth(q));
    }
    let chunks: usize = proof.quotient_chunks.len();
    if quot_open.opened_values.len() != chunks {
        return Err(ValMmcsError::QuotientMatrices(q));
    }
    let t_idx: usize = shift_right(query_index, geo.trace_shift);
    let q_idx: usize = shift_right(query_index, geo.quot_shift);
    let trace_path = match record_path(
        trace_row.as_slice(),
        trace_open.opening_proof.as_slice(),
        t_idx,
        &geo.trace_root,
        drop_nested,
    ) {
        Ok(p) => p,
        Err(e) => {
            return Err(ValMmcsError::TracePath(q, e));
        },
    };
    let quot_row: &Vec<Val> = &quot_open.opened_values[0];
    let (quot_path, quot_batch) = if chunks == 1 {
        if quot_row.len() != EF_DIM {
            return Err(ValMmcsError::QuotientWidth(q));
        }
        match record_path(
            quot_row.as_slice(),
            quot_open.opening_proof.as_slice(),
            q_idx,
            &geo.quot_root,
            drop_nested,
        ) {
            Ok(p) => (p, None),
            Err(e) => {
                return Err(ValMmcsError::QuotientPath(q, e));
            },
        }
    } else {
        match record_batch(
            quot_open.opened_values.as_slice(),
            geo.dims.as_slice(),
            q_idx,
            quot_open.opening_proof.as_slice(),
            &geo.quot_root,
            drop_nested,
        ) {
            Ok(b) => (record_stub(quot_row.as_slice(), drop_nested), Some(b)),
            Err(e) => {
                return Err(ValMmcsError::QuotientBatch(q, e));
            },
        }
    };
    Ok(
        FriValMmcsQueryProof {
            trace_index: t_idx as u32,
            quot_index: q_idx as u32,
            trace_siblings: copy_digests(trace_open.opening_proof.as_slice()),
            quot_siblings: copy_digests(quot_open.opening_proof.as_slice()),
            trace_path,
            quot_path,
            quot_batch,
        },
    )
}

/// Records the trace and quotient paths of every query, given the challenges.
pub fn fri_val_mmcs_bundle_with_challenges(
    proof: &StarkProofView,
    chal: &AggFriChallenges,
    trace_width: usize,
    drop_nested: bool,
) -> (r: Result<Vec<FriValMmcsQueryProof>, ValMmcsError>)
    requires
        proof.opening_proof.fri_proof.commit_phase_commits@.len() + chal.log_blowup + 1
            <= usize::MAX,
    ensures
        val_bundle_outcome(*proof, *chal, trace_width, r),
{
    let geo = match val_geometry(proof, chal) {
        Ok(g) => g,
        Err(e) => {
            return Err(e);
        },
    };
    let n: usize = match fri_queries_from_proof(proof) {
        Ok(n) => n,
        Err(e) => {
            return Err(ValMmcsError::Replay(e));
        },
    };
    let ghost f = |q: int| val_query_report(query_of(*proof, *chal, q), trace_width);
    let mut out: Vec<FriValMmcsQueryProof> = Vec::new();
    let mut q: usize = 0;
    while q < n
        invariant
            q <= n,
            n == proof.opening_proof.fri_proof.query_proofs@.len(),
            geo.of(*proof, *chal),
            query_count_ok(*proof),
            f == (|q: int| val_query_report(query_of(*proof, *chal, q), trace_width)),
            first_some(q as nat, f) is None,
            out@.len() == q,
            forall|j: int|
                0 <= j < q ==> is_val_record(query_of(*proof, *chal, j), #[trigger] out@[j]),
        decreases n - q,
    {
        proof {
            assert(first_some((q + 1) as nat, f) == f(q as int));
            if f(q as int) is Some {
                lemma_first_some_stops((q + 1) as nat, n as nat, f);
            }
        }
        match val_query_record(proof, chal, &geo, q, trace_width, drop_nested) {
            Ok(p) => {
                out.push(p);
            },
            Err(e) => {
                return Err(e);
            },
        }
        q += 1;
    }
    Ok(out)
}

/// What recording the paths of a proof's queries returns.
pub open spec fn val_proof_outcome(
    proof: StarkProofView,
    width: usize,
    params: FriParamsView,
    r: Result<Vec<FriValMmcsQueryProof>, ValMmcsError>,
) -> bool {
    match replay_report(proof, width, params) {
        Some(e) => r == Err::<Vec<FriValMmcsQueryProof>, ValMmcsError>(ValMmcsError::Replay(e)),
        None => exists|chal: AggFriChallenges| #[trigger]
            is_replay(chal, proof, params) && val_bundle_outcome(proof, chal, width, r),
    }
}

fn fri_val_mmcs_bundle_from_proof_inner(
    proof: &StarkProofView,
    trace_width: usize,
    params: &FriParamsView,
    drop_nested: bool,
) -> (r: Result<Vec<FriValMmcsQueryProof>, ValMmcsError>)
    requires
        params_ok(*params),
        proof.opening_proof.fri_proof.commit_phase_commits@.len() + params.log_blowup + 1
            <= usize::MAX,
    ensures
        val_proof_outcome(*proof, trace_width, *params, r),
{
    let chal = match replay_fri_challenges(proof, trace_width, params) {
        Ok(c) => c,
        Err(e) => {
            return Err(ValMmcsError::Replay(e));
        },
    };
    proof {
        assert(is_replay(chal, *proof, *params));
    }
    fri_val_mmcs_bundle_with_challenges(proof, &chal, trace_width, drop_nested)
}

/// Records the trace and quotient paths of every query of a proof.
pub fn fri_val_mmcs_bundle_from_proof(
    proof: &StarkProofView,
    trace_width: usize,
    params: &FriParamsView,
) -> (r: Result<Vec<FriValMmcsQueryProof>, ValMmcsError>)
    requires
        params_ok(*params),
        proof.opening_proof.fri_proof.commit_phase_commits@.len() + params.log_blowup + 1
            <= usize::MAX,
    ensures
        val_proof_outcome(*proof, trace_width, *params, r),
{
    fri_val_mmcs_bundle_from_proof_inner(proof, trace_width, params, false)
}

/// As [`fri_val_mmcs_bundle_from_proof`], without nested proof bytes.
pub fn fri_val_mmcs_bundle_from_proof_drop_nested(
    proof: &StarkProofView,
    trace_width: usize,
    params: &FriParamsView,
) -> (r: Result<Vec<FriValMmcsQueryProof>, ValMmcsError>)
    requires
        params_ok(*params),
        proof.opening_proof.fri_proof.commit_phase_commits@.len() + params.log_blowup + 1
            <= usize::MAX,
    ensures
        val_proof_outcome(*proof, trace_width, *params, r),
{
    fri_val_mmcs_bundle_from_proof_inner(proof, trace_width, params, true)
}

/// A batch path of the quotient rows holds in full.
pub open spec fn quotient_batch_valid(ri: RoInput, b: FriChalBatchPathProof) -> bool {
    ri.quotient_height() <= 30 && quotient_batch(ri, b.siblings@).replay_valid(
        ri.proof.quotient_commitment@[0]@,
        b,
    )
}

/// Where the position or siblings of a record differ from a query, if they do.
pub open spec fn val_meta_report(
    ri: RoInput,
    width: usize,
    p: FriValMmcsQueryProof,
) -> Option<ValMmcsError> {
    let q = ri.query as usize;
    if trace_row_report(ri, width) is Some {
        trace_row_report(ri, width)
    } else if p.trace_index != trace_position(ri) {
        Some(ValMmcsError::TraceIndex(q))
    } else if p.trace_siblings@ != trace_siblings(ri) || p.quot_siblings@ != quotient_siblings(ri) {
        Some(ValMmcsError::Siblings(q))
    } else {
        None
    }
}

/// Where a record differs from a query, if it does.
pub open spec fn val_bind_report(
    ri: RoInput,
    width: usize,
    p: FriValMmcsQueryProof,
) -> Option<ValMmcsError> {
    let q = ri.query as usize;
    if val_meta_report(ri, width, p) is Some {
        val_meta_report(ri, width, p)
    } else if !path_record_valid(
        vals(ri.trace_row()),
        p.trace_siblings@,
        trace_position(ri),
        ri.proof.trace_commitment@[0]@,
        p.trace_path,
    ) {
        Some(ValMmcsError::TraceCheck(q))
    } else {
        match p.quot_batch {
            Some(b) => if p.quot_index != quotient_position(ri) {
                Some(ValMmcsError::QuotientIndex(q))
            } else if !quotient_batch_valid(ri, b) {
                Some(ValMmcsError::BatchCheck(q))
            } else {
                None
            },
            None => if ri.input().input_openings@[1].opened_values@.len() == 0 {
                Some(ValMmcsError::EmptyQuotient(q))
            } else if p.quot_index != quotient_position(ri) {
                Some(ValMmcsError::QuotientIndex(q))
            } else if !path_record_valid(
                vals(ri.chunk_row(0)),
                p.quot_siblings@,
                quotient_position(ri),
                ri.proof.quotient_commitment@[0]@,
                p.quot_path,
            ) {
                Some(ValMmcsError::QuotientCheck(q))
            } else {
                None
            },
        }
    }
}

/// Where a list of records differs from a proof, given the challenges, if it does.
pub open spec fn val_bundle_report(
    proof: StarkProofView,
    chal: AggFriChallenges,
    width: usize,
    bundle: Seq<FriValMmcsQueryProof>,
) -> Option<ValMmcsError> {
    if val_shape_report(proof, chal) is Some {
        val_shape_report(proof, chal)
    } else {
        first_some(
            bundle.len(),
            |q: int| val_bind_report(query_of(proof, chal, q), width, bundle[q]),
        )
    }
}

/// Compares the position and siblings of a record with a query.
pub fn check_val_meta(
    proof: &StarkProofView,
    chal: &AggFriChallenges,
    geo: &ValGeometry,
    q: usize,
    width: usize,
    p: &FriValMmcsQueryProof,
) -> (r: Result<(), ValMmcsError>)
    requires
        geo.of(*proof, *chal),
        q < proof.opening_proof.fri_proof.query_proofs@.len(),
    ensures
        checked(r, val_meta_report(query_of(*proof, *chal, q as int), width, *p)),
{
    if q >= chal.query_indices.len() {
        return Err(ValMmcsError::MissingIndex(q));
    }
    let input = &proof.opening_proof.fri_proof.query_proofs[q].input_proof;
    if input.input_openings.len() < 2 {
        return Err(ValMmcsError::InputBatches(q));
    }
    if input.input_openings[0].opened_values.len() == 0 {
        return Err(ValMmcsError::EmptyTrace(q));
    }
    if input.input_openings[0].opened_values[0].len() != width {
        return Err(ValMmcsError::TraceWidth(q));
    }
    if p.trace_index as usize != shift_right(chal.query_indices[q], geo.trace_shift) {
        return Err(ValMmcsError::TraceIndex(q));
    }
    if !same_digests(&p.trace_siblings, &input.input_openings[0].opening_proof) || !same_digests(
        &p.quot_siblings,
        &input.input_openings[1].opening_proof,
    ) {
        return Err(ValMmcsError::Siblings(q));
    }
    Ok(())
}

/// Compares a record with a query.
fn check_val_query(
    proof: &StarkProofView,
    chal: &AggFriChallenges,
    geo: &ValGeometry,
    q: usize,
    width: usize,
    p: &FriValMmcsQueryProof,
) -> (r: Result<(), ValMmcsError>)
    requires
        geo.of(*proof, *chal),
        q < proof.opening_proof.fri_proof.query_proofs@.len(),
    ensures
        checked(r, val_bind_report(query_of(*proof, *chal, q as int), width, *p)),
{
    if let Err(e) = check_val_meta(proof, chal, geo, q, width, p) {
        return Err(e);
    }
    let input = &proof.opening_proof.fri_proof.query_proofs[q].input_proof;
    let query_index: usize = chal.query_indices[q];
    let t_idx: usize = shift_right(query_index, geo.trace_shift);
    let q_idx: usize = shift_right(query_index, geo.quot_shift);
    if !verify_fri_mmcs_path_proof(
        input.input_openings[0].opened_values[0].as_slice(),
        p.trace_siblings.as_slice(),
        t_idx,
        &geo.trace_root,
        &p.trace_path,
    ) {
        return Err(ValMmcsError::TraceCheck(q));
    }
    let quot_rows: &Vec<Vec<Val>> = &input.input_openings[1].opened_values;
    match &p.quot_batch {
        Some(b) => {
            if p.quot_index as usize != q_idx {
                return Err(ValMmcsError::QuotientIndex(q));
            }
            if !geo.has_dims || !verify_chal_batch_path_replay(
                quot_rows.as_slice(),
                geo.dims.as_slice(),
                q_idx,
                &geo.quot_root,
                b,
            ) {
                return Err(ValMmcsError::BatchCheck(q));
            }
        },
        None => {
            if quot_rows.len() == 0 {
                return Err(ValMmcsError::EmptyQuotient(q));
            }
            if p.quot_index as usize != q_idx {
                return Err(ValMmcsError::QuotientIndex(q));
            }
            if !verify_fri_mmcs_path_proof(
                quot_rows[0].as_slice(),
                p.quot_siblings.as_slice(),
                q_idx,
                &geo.quot_root,
                &p.quot_path,
            ) {
                return Err(ValMmcsError::QuotientCheck(q));
            }
        },
    }
    Ok(())
}

/// Checks that records belong to the queries of a proof, given the challenges.
pub fn bind_fri_val_mmcs_with_challenges(
    proof: &StarkProofView,
    chal: &AggFriChallenges,
    bundle: &[FriValMmcsQueryProof],
    trace_width: usize,
) -> (r: Result<(), ValMmcsError>)
    requires
        proof.opening_proof.fri_proof.commit_phase_commits@.len() + chal.log_blowup + 1
            <= usize::MAX,
        bundle@.len() == proof.opening_proof.fri_proof.query_proofs@.len(),
    ensures
        checked(r, val_bundle_report(*proof, *chal, trace_width, bundle@)),
{
    let geo = match val_geometry(proof, chal) {
        Ok(g) => g,
        Err(e) => {
            return Err(e);
        },
    };
    let ghost f = |q: int| val_bind_report(query_of(*proof, *chal, q), trace_width, bundle@[q]);
    let mut q: usize = 0;
    while q < bundle.len()
        invariant
            q <= bundle.len(),
            bundle@.len() == proof.opening_proof.fri_proof.query_proofs@.len(),
            geo.of(*proof, *chal),
            f == (|q: int| val_bind_report(query_of(*proof, *chal, q), trace_width, bundle@[q])),
            first_some(q as nat, f) is None,
        decreases bundle.len() - q,
    {
        proof {
            assert(first_some((q + 1) as nat, f) == f(q as int));
            if f(q as int) is Some {
                lemma_first_some_stops((q + 1) as nat, bundle@.len(), f);
            }
        }
        if let Err(e) = check_val_query(proof, chal, &geo, q, trace_width, &bundle[q]) {
            return Err(e);
        }
        q += 1;
    }
    Ok(())
}

/// What checking that records belong to a proof returns.
pub open spec fn val_bind_outcome(
    proof: StarkProofView,
    width: usize,
    params: FriParamsView,
    bundle: Seq<FriValMmcsQueryProof>,
    r: Result<(), ValMmcsError>,
) -> bool {
    let n = proof.opening_proof.fri_proof.query_proofs@.len();
    if !query_count_ok(proof) {
        r == Err::<(), ValMmcsError>(ValMmcsError::Replay(ReplayError::QueryCount(n as usize)))
    } else if bundle.len() != n {
        r == Err::<(), ValMmcsError>(ValMmcsError::Length(bundle.len() as usize))
    } else {
        match replay_report(proof, width, params) {
            Some(e) => r == Err::<(), ValMmcsError>(ValMmcsError::Replay(e)),
            None => exists|chal: AggFriChallenges| #[trigger]
                is_replay(chal, proof, params) && checked(
                    r,
                    val_bundle_report(proof, chal, width, bundle),
                ),
        }
    }
}

/// Checks that records belong to the queries of a proof.
pub fn bind_fri_val_mmcs_bundle_width(
    proof: &StarkProofView,
    bundle: &[FriValMmcsQueryProof],
    trace_width: usize,
    params: &FriParamsView,
) -> (r: Result<(), ValMmcsError>)
    requires
        params_ok(*params),
        proof.opening_proof.fri_proof.commit_phase_commits@.len() + params.log_blowup + 1
            <= usize::MAX,
    ensures
        val_bind_outcome(*proof, trace_width, *params, bundle@, r),
{
    let n: usize = match fri_queries_from_proof(proof) {
        Ok(n) => n,
        Err(e) => {
            return Err(ValMmcsError::Replay(e));
        },
    };
    if bundle.len() != n {
        return Err(ValMmcsError::Length(bundle.len()));
    }
    let chal = match replay_fri_challenges(proof, trace_width, params) {
        Ok(c) => c,
        Err(e) => {
            return Err(ValMmcsError::Replay(e));
        },
    };
    proof {
        assert(is_replay(chal, *proof, *params));
    }
    bind_fri_val_mmcs_with_challenges(proof, &chal, bundle, trace_width)
}

/// Recorded paths belong to the proof they were recorded from, unless a position passes 32 bits.
pub proof fn lemma_val_records_bind(
    proof: StarkProofView,
    chal: AggFriChallenges,
    width: usize,
    bundle: Vec<FriValMmcsQueryProof>,
)
    requires
        val_bundle_outcome(proof, chal, width, Ok(bundle)),
        forall|q: int|
            0 <= q < bundle@.len() ==> 0 <= #[trigger] query_of(proof, chal, q).query_index()
                <= u32::MAX,
    ensures
        val_bundle_report(proof, chal, width, bundle@) is None,
{
    lemma_val_records_bind_upto(proof, chal, width, bundle, bundle@.len());
}

proof fn lemma_val_records_bind_upto(
    proof: StarkProofView,
    chal: AggFriChallenges,
    width: usize,
    bundle: Vec<FriValMmcsQueryProof>,
    k: nat,
)
    requires
        val_bundle_outcome(proof, chal, width, Ok(bundle)),
        forall|q: int|
            0 <= q < bundle@.len() ==> 0 <= #[trigger] query_of(proof, chal, q).query_index()
                <= u32::MAX,
        k <= bundle@.len(),
    ensures
        first_some(
            k,
            |q: int| val_bind_report(query_of(proof, chal, q), width, bundle@[q]),
        ) is None,
    decreases k,
{
    if k > 0 {
        let q = k - 1;
        let n = bundle@.len();
        let ri = query_of(proof, chal, q);
        let p = bundle@[q];
        let made = |q: int| val_query_report(query_of(proof, chal, q), width);
        lemma_val_records_bind_upto(proof, chal, width, bundle, q as nat);
        lemma_first_some_none(n, made, q);
        assert(made(q) is None);
        assert(is_val_record(ri, p));
        crate::bits::lemma_shr_bounds(
            ri.query_index(),
            (ri.log_max_height() - ri.trace_height()) as nat,
        );
        crate::bits::lemma_shr_bounds(
            ri.query_index(),
            (ri.log_max_height() - ri.quotient_height()) as nat,
        );
        if ri.chunks() != 1 {
            let b = p.quot_batch->0;
            crate::batch_path::lemma_recorded_batch_valid(
                quotient_batch(ri, quotient_siblings(ri)),
                ri.proof.quotient_commitment@[0]@,
                b,
            );
            assert(quotient_batch(ri, b.siblings@) == quotient_batch(ri, quotient_siblings(ri)));
        }
        assert(val_bind_report(ri, width, p) is None);
    }
}

} // verus!
