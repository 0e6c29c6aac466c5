//! The openings of a proof's queries as path statements, ready to be proven in groups.
use vstd::prelude::*;

use crate::batch_path::{
    join_rows, joint_row, order_of, row_views, tallest_first, widths_match, Dimensions,
    FriChalBatchPathProof,
};
use crate::bits::shift_right;
use crate::chal_mmcs::{
    first_layer_batch, first_layer_rows, flatten_pair, lemma_sum_heights, round_fold_report,
    round_open_report, round_position, round_row, rounds_fit, ChalMmcsError,
    FriChalMmcsQueryProof, RoundError,
};
use crate::checks::{first_some, lemma_first_some_none, lemma_first_some_stops};
use crate::ext::{evals_of, Challenge};
use crate::field::{vals, Val};
use crate::fri_fold_bind::{folded_openings, ri_chain, ro_views, ChainCursor, ChainInput};
use crate::fri_fs_replay::AggFriChallenges;
use crate::fri_mmcs_bind::AggFriMmcsBundle;
use crate::fri_mmcs_group_m4b::MmcsPathStatement;
use crate::fri_ro::{reconstruct_query_ro, RoInput};
use crate::keccak_f_native::KECCAK_RATE;
use crate::merkle::{copy_digests, same_digests};
use crate::path_strip::m4b_width_eligible;
use crate::pcs_view::{CommitPhaseStepView, StarkProofView};
use crate::val_mmcs::{
    query_of, quotient_dims, quotient_position, quotient_siblings, trace_position, trace_row_report,
    trace_siblings, FriValMmcsQueryProof, ValGeometry, ValMmcsError, EF_DIM,
};

verus! {

/// Path statements by kind of opening.
#[derive(Debug, Clone, Default)]
pub struct LeafMmcsGroupStatements {
    pub val_trace: Vec<MmcsPathStatement>,
    pub val_quot: Option<Vec<MmcsPathStatement>>,
    pub val_quot_batch: Option<Vec<MmcsPathStatement>>,
    pub chal_first_layer: Option<Vec<MmcsPathStatement>>,
    /// By path depth, shallowest first.
    pub chal_commit: Vec<(usize, Vec<MmcsPathStatement>)>,
}

/// Why statements do not match a proof.
#[derive(Debug, Clone, PartialEq, Eq)]
pub enum StatementError {
    Val(ValMmcsError),
    Chal(ChalMmcsError),
    /// The trace position or siblings of a record differ from the query.
    TraceMeta(usize),
    QuotientMeta(usize),
}

/// What a path statement claims.
pub struct PathClaim {
    pub row: Seq<int>,
    pub siblings: Seq<[u8; 32]>,
    pub index: int,
    pub root: Seq<u8>,
}

/// The claim of a statement.
pub open spec fn claim_of(s: MmcsPathStatement) -> PathClaim {
    PathClaim { row: vals(s.row@), siblings: s.siblings@, index: s.index as int, root: s.root@ }
}

/// The claims of a list of statements.
pub open spec fn claims_of(s: Seq<MmcsPathStatement>) -> Seq<PathClaim> {
    Seq::new(s.len(), |i: int| claim_of(s[i]))
}

/// The claim of a query's trace row.
pub open spec fn trace_claim(ri: RoInput) -> PathClaim {
    PathClaim {
        row: vals(ri.trace_row()),
        siblings: trace_siblings(ri),
        index: trace_position(ri),
        root: ri.proof.trace_commitment@[0]@,
    }
}

/// Why the trace row of a query is not stated, if so.
pub open spec fn trace_stmt_report(ri: RoInput, width: usize, p: FriValMmcsQueryProof) -> Option<
    StatementError,
> {
    if trace_row_report(ri, width) is Some {
        Some(StatementError::Val(trace_row_report(ri, width)->0))
    } else if p.trace_index != trace_position(ri) || p.trace_siblings@ != trace_siblings(ri) {
        Some(StatementError::TraceMeta(ri.query as usize))
    } else {
        None
    }
}

/// The claim of a query's single quotient row.
pub open spec fn quot_claim(ri: RoInput) -> PathClaim {
    PathClaim {
        row: vals(ri.chunk_row(0)),
        siblings: quotient_siblings(ri),
        index: quotient_position(ri),
        root: ri.proof.quotient_commitment@[0]@,
    }
}

/// Why the quotient row of a query is not stated, if so.
pub open spec fn quot_stmt_report(ri: RoInput, p: FriValMmcsQueryProof) -> Option<StatementError> {
    let q = ri.query as usize;
    if ri.input().input_openings@[1].opened_values@.len() == 0 {
        Some(StatementError::Val(ValMmcsError::EmptyQuotient(q)))
    } else if ri.chunk_row(0).len() != EF_DIM {
        Some(StatementError::Val(ValMmcsError::QuotientWidth(q)))
    } else if p.quot_index != quotient_position(ri) || p.quot_siblings@ != quotient_siblings(ri) {
        Some(StatementError::QuotientMeta(q))
    } else {
        None
    }
}

/// Whether a width fits one or two permutations.
pub open spec fn eligible(width: nat) -> bool {
    3 <= width && 4 * width <= 2 * KECCAK_RATE
}

/// A batch opening of equally tall matrices, into which no other joins, is one path.
pub open spec fn is_one_path(
    rows: Seq<Seq<int>>,
    dims: Seq<Dimensions>,
    siblings: Seq<[u8; 32]>,
    batch: FriChalBatchPathProof,
) -> bool {
    &&& 0 < dims.len() == rows.len()
    &&& forall|i: int| 0 <= i < dims.len() ==> (#[trigger] dims[i]).height == dims[0].height
    &&& batch.inject_compresses@.len() == 0
    &&& !(exists|i: int| 0 <= i < rows.len() && (#[trigger] rows[i]).len() != dims[i].width)
    &&& eligible(joined_width(rows, dims))
    &&& siblings.len() > 0
}

/// All rows one after the other, in the order of their matrices.
pub open spec fn joined_rows(rows: Seq<Seq<int>>, dims: Seq<Dimensions>) -> Seq<int> {
    joint_row(rows, tallest_first(crate::batch_path::heights_of(dims)))
}

/// The width of all rows together.
pub open spec fn joined_width(rows: Seq<Seq<int>>, dims: Seq<Dimensions>) -> nat {
    joined_rows(rows, dims).len()
}

/// The quotient rows of a query.
pub open spec fn quot_rows(ri: RoInput) -> Seq<Seq<int>> {
    row_views(ri.input().input_openings@[1].opened_values@)
}

/// The quotient openings of a query are one path.
pub open spec fn quot_batch_stated(ri: RoInput, p: FriValMmcsQueryProof) -> bool {
    ri.quotient_height() <= 30 && is_one_path(
        quot_rows(ri),
        quotient_dims(ri),
        p.quot_siblings@,
        p.quot_batch->0,
    )
}

/// The claim of a query's joint quotient row.
pub open spec fn quot_batch_claim(ri: RoInput, p: FriValMmcsQueryProof) -> PathClaim {
    PathClaim {
        row: joined_rows(quot_rows(ri), quotient_dims(ri)),
        siblings: p.quot_siblings@,
        index: quotient_position(ri),
        root: ri.proof.quotient_commitment@[0]@,
    }
}

/// Why the first layer of a query is not stated, if so: an error, or no single path.
pub open spec fn first_layer_event(ri: RoInput, width: usize, p: FriChalMmcsQueryProof) -> Option<
    Option<StatementError>,
> {
    let b = first_layer_batch(ri, p.first_layer.siblings@);
    if ri.report(width) is Some {
        Some(
            Some(
                StatementError::Chal(
                    ChalMmcsError::Openings(ri.query as usize, ri.report(width)->0),
                ),
            ),
        )
    } else if ri.sums().len() != 1 || !is_one_path(
        b.rows,
        b.dims,
        p.first_layer.siblings@,
        p.first_layer,
    ) {
        Some(None)
    } else {
        None
    }
}

/// The claim of a query's first layer.
pub open spec fn first_layer_claim(ri: RoInput, p: FriChalMmcsQueryProof) -> PathClaim {
    let b = first_layer_batch(ri, p.first_layer.siblings@);
    PathClaim {
        row: joined_rows(b.rows, b.dims),
        siblings: p.first_layer.siblings@,
        index: ri.query_index() / 2,
        root: ri.view.first_layer_commitment@[0]@,
    }
}

/// The claim of commit-phase round `r`.
pub open spec fn round_claim(c: ChainInput, commits: Seq<Vec<[u8; 32]>>, r: int) -> PathClaim {
    PathClaim {
        row: round_row(c, r),
        siblings: c.rounds[r].opening_proof@,
        index: round_position(c, r),
        root: commits[r]@[0]@,
    }
}

/// Why round `r` is not stated, if so.
pub open spec fn round_stmt_report(
    c: ChainInput,
    commits: Seq<Vec<[u8; 32]>>,
    p: FriChalMmcsQueryProof,
    r: int,
) -> Option<RoundError> {
    let siblings = c.rounds[r].opening_proof@;
    if round_open_report(c, commits, r) is Some {
        round_open_report(c, commits, r)
    } else if r >= p.commit_siblings@.len() || p.commit_siblings@[r]@ != siblings || r
        >= p.commit_indices@.len() || p.commit_indices@[r] != round_position(c, r)
        || p.commit_paths@[r].depth != siblings.len() {
        Some(RoundError::Meta(r as usize))
    } else {
        round_fold_report(c, r)
    }
}

/// Why the commit-phase rounds of a query are not stated, if so.
pub open spec fn commit_stmt_report(ri: RoInput, width: usize, p: FriChalMmcsQueryProof) -> Option<
    StatementError,
> {
    let q = ri.query as usize;
    let c = ri_chain(ri);
    let commits = ri.view.fri_proof.commit_phase_commits@;
    let rounds = first_some(c.rounds.len(), |r: int| round_stmt_report(c, commits, p, r));
    if p.commit_paths@.len() != c.rounds.len() {
        Some(StatementError::Chal(ChalMmcsError::PathCount(q)))
    } else if ri.report(width) is Some {
        Some(StatementError::Chal(ChalMmcsError::Openings(q, ri.report(width)->0)))
    } else if rounds is Some {
        Some(StatementError::Chal(ChalMmcsError::Round(q, rounds->0)))
    } else {
        None
    }
}

/// The commit-phase claims of a query.
pub open spec fn query_commit_claims(ri: RoInput) -> Seq<PathClaim> {
    let c = ri_chain(ri);
    Seq::new(
        c.rounds.len(),
        |r: int| round_claim(c, ri.view.fri_proof.commit_phase_commits@, r),
    )
}

/// The commit-phase claims of the first `n` queries.
pub open spec fn commit_claims(proof: StarkProofView, chal: AggFriChallenges, n: nat) -> Seq<
    PathClaim,
>
    decreases n,
{
    if n == 0 {
        Seq::empty()
    } else {
        commit_claims(proof, chal, (n - 1) as nat) + query_commit_claims(
            query_of(proof, chal, n - 1),
        )
    }
}

/// The claims of a depth.
pub open spec fn of_depth(claims: Seq<PathClaim>, d: int) -> Seq<PathClaim> {
    claims.filter(|c: PathClaim| c.siblings.len() == d)
}

/// Some entry is of depth `d`.
pub open spec fn has_depth(entries: Seq<(usize, Vec<MmcsPathStatement>)>, d: int) -> bool {
    exists|i: int| 0 <= i < entries.len() && (#[trigger] entries[i]).0 == d
}

/// `entries` sorts `claims` by depth, shallowest first, each depth in its order. Only depths
/// that occur have an entry.
pub open spec fn is_by_depth(
    entries: Seq<(usize, Vec<MmcsPathStatement>)>,
    claims: Seq<PathClaim>,
) -> bool {
    &&& forall|i: int, j: int|
        0 <= i < j < entries.len() ==> (#[trigger] entries[i]).0 < (#[trigger] entries[j]).0
    &&& forall|i: int|
        0 <= i < entries.len() ==> claims_of((#[trigger] entries[i]).1@) == of_depth(
            claims,
            entries[i].0 as int,
        )
    &&& forall|i: int| 0 <= i < entries.len() ==> (#[trigger] entries[i]).1@.len() > 0
    &&& forall|k: int|
        0 <= k < claims.len() ==> has_depth(entries, (#[trigger] claims[k]).siblings.len() as int)
}

/// Copies a row.
pub fn copy_vals(s: &[Val]) -> (r: Vec<Val>)
    ensures
        r@ == s@,
{
    let mut r: Vec<Val> = Vec::new();
    let mut i: usize = 0;
    while i < s.len()
        invariant
            i <= s.len(),
            r@ == s@.take(i as int),
        decreases s.len() - i,
    {
        r.push(s[i]);
        i += 1;
        proof {
            assert(r@ =~= s@.take(i as int));
        }
    }
    proof {
        assert(r@ =~= s@);
    }
    r
}

/// Copies a statement.
pub fn copy_statement(s: &MmcsPathStatement) -> (r: MmcsPathStatement)
    ensures
        claim_of(r) == claim_of(*s),
{
    MmcsPathStatement {
        row: copy_vals(s.row.as_slice()),
        siblings: copy_digests(s.siblings.as_slice()),
        index: s.index,
        root: s.root,
    }
}

/// Appends copies of statements.
pub fn append_statements(out: &mut Vec<MmcsPathStatement>, s: &[MmcsPathStatement])
    ensures
        claims_of(final(out)@) == claims_of(old(out)@) + claims_of(s@),
{
    let ghost o0 = out@;
    let mut i: usize = 0;
    proof {
        assert(claims_of(out@) =~= claims_of(o0) + claims_of(s@).take(0));
    }
    while i < s.len()
        invariant
            i <= s.len(),
            claims_of(out@) == claims_of(o0) + claims_of(s@).take(i as int),
        decreases s.len() - i,
    {
        let ghost before = out@;
        out.push(copy_statement(&s[i]));
        i += 1;
        proof {
            assert(claims_of(out@) =~= claims_of(before).push(claim_of(s@[i - 1])));
            assert(claims_of(out@) =~= claims_of(o0) + claims_of(s@).take(i as int));
        }
    }
    proof {
        assert(claims_of(s@).take(i as int) =~= claims_of(s@));
    }
}

/// States the trace rows of the queries.
fn collect_val_trace_stmts(
    proof: &StarkProofView,
    chal: &AggFriChallenges,
    geo: &ValGeometry,
    width: usize,
    bundle: &Vec<FriValMmcsQueryProof>,
) -> (r: Result<Vec<MmcsPathStatement>, StatementError>)
    requires
        geo.of(*proof, *chal),
        bundle@.len() <= proof.opening_proof.fri_proof.query_proofs@.len(),
    ensures
        match first_some(
            bundle@.len(),
            |q: int| trace_stmt_report(query_of(*proof, *chal, q), width, bundle@[q]),
        ) {
            Some(e) => r == Err::<Vec<MmcsPathStatement>, StatementError>(e),
            None => r matches Ok(s) && claims_of(s@) == Seq::new(
                bundle@.len(),
                |q: int| trace_claim(query_of(*proof, *chal, q)),
            ),
        },
{
    let ghost f = |q: int| trace_stmt_report(query_of(*proof, *chal, q), width, bundle@[q]);
    let ghost want = Seq::new(bundle@.len(), |q: int| trace_claim(query_of(*proof, *chal, q)));
    let mut out: Vec<MmcsPathStatement> = Vec::new();
    let mut q: usize = 0;
    while q < bundle.len()
        invariant
            q <= bundle.len(),
            geo.of(*proof, *chal),
            bundle@.len() <= proof.opening_proof.fri_proof.query_proofs@.len(),
            f == (|q: int| trace_stmt_report(query_of(*proof, *chal, q), width, bundle@[q])),
            want == Seq::new(bundle@.len(), |q: int| trace_claim(query_of(*proof, *chal, q))),
            first_some(q as nat, f) is None,
            out@.len() == q,
            forall|j: int| 0 <= j < q ==> claim_of(#[trigger] out@[j]) == want[j],
        decreases bundle.len() - q,
    {
        proof {
            assert(first_some((q + 1) as nat, f) == f(q as int));
            if f(q as int) is Some {
                lemma_first_some_stops((q + 1) as nat, bundle@.len(), f);
            }
        }
        if q >= chal.query_indices.len() {
            return Err(StatementError::Val(ValMmcsError::MissingIndex(q)));
        }
        let input = &proof.opening_proof.fri_proof.query_proofs[q].input_proof;
        if input.input_openings.len() < 2 {
            return Err(StatementError::Val(ValMmcsError::InputBatches(q)));
        }
        let opening = &input.input_openings[0];
        if opening.opened_values.len() == 0 {
            return Err(StatementError::Val(ValMmcsError::EmptyTrace(q)));
        }
        if opening.opened_values[0].len() != width {
            return Err(StatementError::Val(ValMmcsError::TraceWidth(q)));
        }
        let index: usize = shift_right(chal.query_indices[q], geo.trace_shift);
        let p = &bundle[q];
        if p.trace_index as usize != index || !same_digests(
            &p.trace_siblings,
            &opening.opening_proof,
        ) {
            return Err(StatementError::TraceMeta(q));
        }
        out.push(
            MmcsPathStatement {
                row: copy_vals(opening.opened_values[0].as_slice()),
                siblings: copy_digests(p.trace_siblings.as_slice()),
                index,
                root: geo.trace_root,
            },
        );
        q += 1;
    }
    proof {
        assert(claims_of(out@) =~= want);
    }
    Ok(out)
}

/// Whether some, or every, record has a quotient batch.
fn count_batches(bundle: &Vec<FriValMmcsQueryProof>) -> (r: (bool, bool))
    ensures
        r.0 == exists|q: int| 0 <= q < bundle@.len() && (#[trigger] bundle@[q]).quot_batch is Some,
        r.1 == forall|q: int| 0 <= q < bundle@.len() ==> (#[trigger] bundle@[q]).quot_batch is Some,
{
    let mut any: bool = false;
    let mut all: bool = true;
    let mut q: usize = 0;
    while q < bundle.len()
        invariant
            q <= bundle.len(),
            any == exists|j: int| 0 <= j < q && (#[trigger] bundle@[j]).quot_batch is Some,
            all == forall|j: int| 0 <= j < q ==> (#[trigger] bundle@[j]).quot_batch is Some,
        decreases bundle.len() - q,
    {
        if bundle[q].quot_batch.is_some() {
            any = true;
            proof {
                assert(bundle@[q as int].quot_batch is Some);
            }
        } else {
            all = false;
            proof {
                assert(!(bundle@[q as int].quot_batch is Some));
            }
        }
        q += 1;
    }
    (any, all)
}

/// The quotient rows can be stated one by one.
pub open spec fn single_quotients(proof: StarkProofView, bundle: Seq<FriValMmcsQueryProof>) -> bool {
    &&& !(exists|q: int| 0 <= q < bundle.len() && (#[trigger] bundle[q]).quot_batch is Some)
    &&& proof.quotient_chunks@.len() == 1
}

/// States the quotient rows of the queries, where each is a single one.
fn collect_val_quot_stmts(
    proof: &StarkProofView,
    chal: &AggFriChallenges,
    geo: &ValGeometry,
    Ghost(width): Ghost<usize>,
    bundle: &Vec<FriValMmcsQueryProof>,
) -> (r: Result<Option<Vec<MmcsPathStatement>>, StatementError>)
    requires
        geo.of(*proof, *chal),
        bundle@.len() <= proof.opening_proof.fri_proof.query_proofs@.len(),
        forall|q: int|
            0 <= q < bundle@.len() ==> trace_row_report(
                #[trigger] query_of(*proof, *chal, q),
                width,
            ) is None,
    ensures
        if !single_quotients(*proof, bundle@) {
            r == Ok::<Option<Vec<MmcsPathStatement>>, StatementError>(None)
        } else {
            match first_some(
                bundle@.len(),
                |q: int| quot_stmt_report(query_of(*proof, *chal, q), bundle@[q]),
            ) {
                Some(e) => r == Err::<Option<Vec<MmcsPathStatement>>, StatementError>(e),
                None => r matches Ok(Some(s)) && claims_of(s@) == Seq::new(
                    bundle@.len(),
                    |q: int| quot_claim(query_of(*proof, *chal, q)),
                ),
            }
        },
{
    let (any, _) = count_batches(bundle);
    if any || proof.quotient_chunks.len() != 1 {
        return Ok(None);
    }
    let ghost f = |q: int| quot_stmt_report(query_of(*proof, *chal, q), bundle@[q]);
    let ghost want = Seq::new(bundle@.len(), |q: int| quot_claim(query_of(*proof, *chal, q)));
    let mut out: Vec<MmcsPathStatement> = Vec::new();
    let mut q: usize = 0;
    while q < bundle.len()
        invariant
            q <= bundle.len(),
            geo.of(*proof, *chal),
            bundle@.len() <= proof.opening_proof.fri_proof.query_proofs@.len(),
            forall|q: int|
                0 <= q < bundle@.len() ==> trace_row_report(
                    #[trigger] query_of(*proof, *chal, q),
                    width,
                ) is None,
            single_quotients(*proof, bundle@),
            f == (|q: int| quot_stmt_report(query_of(*proof, *chal, q), bundle@[q])),
            want == Seq::new(bundle@.len(), |q: int| quot_claim(query_of(*proof, *chal, q))),
            first_some(q as nat, f) is None,
            out@.len() == q,
            forall|j: int| 0 <= j < q ==> claim_of(#[trigger] out@[j]) == want[j],
        decreases bundle.len() - q,
    {
        proof {
            assert(trace_row_report(query_of(*proof, *chal, q as int), width) is None);
            assert(first_some((q + 1) as nat, f) == f(q as int));
            if f(q as int) is Some {
                lemma_first_some_stops((q + 1) as nat, bundle@.len(), f);
            }
        }
        let opening = &proof.opening_proof.fri_proof.query_proofs[q].input_proof.input_openings[1];
        if opening.opened_values.len() == 0 {
            return Err(StatementError::Val(ValMmcsError::EmptyQuotient(q)));
        }
        if opening.opened_values[0].len() != EF_DIM {
            return Err(StatementError::Val(ValMmcsError::QuotientWidth(q)));
        }
        let index: usize = shift_right(chal.query_indices[q], geo.quot_shift);
        let p = &bundle[q];
        if p.quot_index as usize != index || !same_digests(
            &p.quot_siblings,
            &opening.opening_proof,
        ) {
            return Err(StatementError::QuotientMeta(q));
        }
        out.push(
            MmcsPathStatement {
                row: copy_vals(opening.opened_values[0].as_slice()),
                siblings: copy_digests(p.quot_siblings.as_slice()),
                index,
                root: geo.quot_root,
            },
        );
        q += 1;
    }
    proof {
        assert(claims_of(out@) =~= want);
    }
    Ok(Some(out))
}

/// A batch opening of equally tall matrices as one statement.
fn eq_height_batch_stmt(
    rows: &[Vec<Val>],
    dims: &[Dimensions],
    index: usize,
    siblings: &[[u8; 32]],
    root: [u8; 32],
    batch: &FriChalBatchPathProof,
) -> (r: Option<MmcsPathStatement>)
    ensures
        r is Some <==> is_one_path(row_views(rows@), dims@, siblings@, *batch),
        r matches Some(s) ==> claim_of(s) == (PathClaim {
            row: joined_rows(row_views(rows@), dims@),
            siblings: siblings@,
            index: index as int,
            root: root@,
        }),
{
    if dims.len() == 0 || dims.len() != rows.len() {
        return None;
    }
    let h0: usize = dims[0].height;
    let mut i: usize = 0;
    while i < dims.len()
        invariant
            i <= dims.len(),
            dims@.len() > 0,
            h0 == dims@[0].height,
            forall|j: int| 0 <= j < i ==> (#[trigger] dims@[j]).height == h0,
        decreases dims.len() - i,
    {
        if dims[i].height != h0 {
            return None;
        }
        i += 1;
    }
    if batch.inject_compresses.len() != 0 {
        return None;
    }
    if !widths_match(rows, dims) {
        return None;
    }
    let order: Vec<usize> = order_of(dims);
    let row: Vec<Val> = join_rows(rows, &order);
    proof {
        assert(row@.len() == vals(row@).len());
    }
    if !m4b_width_eligible(row.len()) || siblings.len() == 0 {
        return None;
    }
    Some(MmcsPathStatement { row, siblings: copy_digests(siblings), index, root })
}

/// The quotient rows can be stated as one path per query.
pub open spec fn batched_quotients(
    proof: StarkProofView,
    chal: AggFriChallenges,
    bundle: Seq<FriValMmcsQueryProof>,
) -> bool {
    &&& forall|q: int| 0 <= q < bundle.len() ==> (#[trigger] bundle[q]).quot_batch is Some
    &&& forall|q: int|
        0 <= q < bundle.len() ==> quot_batch_stated(query_of(proof, chal, q), #[trigger] bundle[q])
}

/// States the joint quotient rows of the queries, where each is one path.
fn collect_val_quot_batch_stmts(
    proof: &StarkProofView,
    chal: &AggFriChallenges,
    geo: &ValGeometry,
    Ghost(width): Ghost<usize>,
    bundle: &Vec<FriValMmcsQueryProof>,
) -> (r: Option<Vec<MmcsPathStatement>>)
    requires
        geo.of(*proof, *chal),
        bundle@.len() <= proof.opening_proof.fri_proof.query_proofs@.len(),
        forall|q: int|
            0 <= q < bundle@.len() ==> trace_row_report(
                #[trigger] query_of(*proof, *chal, q),
                width,
            ) is None,
    ensures
        r is Some <==> batched_quotients(*proof, *chal, bundle@),
        r matches Some(s) ==> claims_of(s@) == Seq::new(
            bundle@.len(),
            |q: int| quot_batch_claim(query_of(*proof, *chal, q), bundle@[q]),
        ),
{
    let (_, all) = count_batches(bundle);
    if !all {
        return None;
    }
    let ghost want = Seq::new(
        bundle@.len(),
        |q: int| quot_batch_claim(query_of(*proof, *chal, q), bundle@[q]),
    );
    let mut out: Vec<MmcsPathStatement> = Vec::new();
    let mut q: usize = 0;
    while q < bundle.len()
        invariant
            q <= bundle.len(),
            geo.of(*proof, *chal),
            bundle@.len() <= proof.opening_proof.fri_proof.query_proofs@.len(),
            forall|q: int|
                0 <= q < bundle@.len() ==> trace_row_report(
                    #[trigger] query_of(*proof, *chal, q),
                    width,
                ) is None,
            forall|q: int|
                0 <= q < bundle@.len() ==> (#[trigger] bundle@[q]).quot_batch is Some,
            want == Seq::new(
                bundle@.len(),
                |q: int| quot_batch_claim(query_of(*proof, *chal, q), bundle@[q]),
            ),
            forall|j: int|
                0 <= j < q ==> quot_batch_stated(query_of(*proof, *chal, j), #[trigger] bundle@[j]),
            out@.len() == q,
            forall|j: int| 0 <= j < q ==> claim_of(#[trigger] out@[j]) == want[j],
        decreases bundle.len() - q,
    {
        let ghost ri = query_of(*proof, *chal, q as int);
        let p = &bundle[q];
        proof {
            assert(trace_row_report(ri, width) is None);
            assert(bundle@[q as int].quot_batch is Some);
            assert(quotient_dims(ri) == quotient_dims(query_of(*proof, *chal, 0)));
        }
        if !geo.has_dims {
            proof {
                assert(!quot_batch_stated(ri, bundle@[q as int]));
            }
            return None;
        }
        let opening = &proof.opening_proof.fri_proof.query_proofs[q].input_proof.input_openings[1];
        let index: usize = shift_right(chal.query_indices[q], geo.quot_shift);
        match eq_height_batch_stmt(
            opening.opened_values.as_slice(),
            geo.dims.as_slice(),
            index,
            p.quot_siblings.as_slice(),
            geo.quot_root,
            p.quot_batch.as_ref().unwrap(),
        ) {
            Some(s) => {
                proof {
                    assert(quot_batch_stated(ri, bundle@[q as int]));
                }
                out.push(s);
            },
            None => {
                proof {
                    assert(!quot_batch_stated(ri, bundle@[q as int]));
                }
                return None;
            },
        }
        q += 1;
    }
    proof {
        assert(claims_of(out@) =~= want);
    }
    Some(out)
}

/// States the first layers of the queries, where each is one path.
fn collect_chal_first_layer_stmts(
    proof: &StarkProofView,
    chal: &AggFriChallenges,
    width: usize,
    bundle: &Vec<FriChalMmcsQueryProof>,
) -> (r: Result<Option<Vec<MmcsPathStatement>>, StatementError>)
    requires
        rounds_fit(proof.opening_proof, chal.log_blowup),
        bundle@.len() <= proof.opening_proof.fri_proof.query_proofs@.len(),
        proof.opening_proof.first_layer_commitment@.len() > 0,
    ensures
        match first_some(
            bundle@.len(),
            |q: int| first_layer_event(query_of(*proof, *chal, q), width, bundle@[q]),
        ) {
            Some(Some(e)) => r == Err::<Option<Vec<MmcsPathStatement>>, StatementError>(e),
            Some(None) => r == Ok::<Option<Vec<MmcsPathStatement>>, StatementError>(None),
            None => r matches Ok(Some(s)) && claims_of(s@) == Seq::new(
                bundle@.len(),
                |q: int| first_layer_claim(query_of(*proof, *chal, q), bundle@[q]),
            ),
        },
{
    let view = &proof.opening_proof;
    let ghost f = |q: int| first_layer_event(query_of(*proof, *chal, q), width, bundle@[q]);
    let ghost want = Seq::new(
        bundle@.len(),
        |q: int| first_layer_claim(query_of(*proof, *chal, q), bundle@[q]),
    );
    let mut out: Vec<MmcsPathStatement> = Vec::new();
    let mut q: usize = 0;
    while q < bundle.len()
        invariant
            q <= bundle.len(),
            *view == proof.opening_proof,
            rounds_fit(proof.opening_proof, chal.log_blowup),
            bundle@.len() <= proof.opening_proof.fri_proof.query_proofs@.len(),
            proof.opening_proof.first_layer_commitment@.len() > 0,
            f == (|q: int| first_layer_event(query_of(*proof, *chal, q), width, bundle@[q])),
            want == Seq::new(
                bundle@.len(),
                |q: int| first_layer_claim(query_of(*proof, *chal, q), bundle@[q]),
            ),
            first_some(q as nat, f) is None,
            out@.len() == q,
            forall|j: int| 0 <= j < q ==> claim_of(#[trigger] out@[j]) == want[j],
        decreases bundle.len() - q,
    {
        let ghost ri = query_of(*proof, *chal, q as int);
        proof {
            assert(first_some((q + 1) as nat, f) == f(q as int));
            if f(q as int) is Some {
                lemma_first_some_stops((q + 1) as nat, bundle@.len(), f);
            }
        }
        let (reduced, fold_ys) = match reconstruct_query_ro(proof, chal, view, q, width) {
            Ok(x) => x,
            Err(e) => {
                return Err(StatementError::Chal(ChalMmcsError::Openings(q, e)));
            },
        };
        proof {
            lemma_sum_heights(ri, width);
        }
        if fold_ys.len() != 1 {
            return Ok(None);
        }
        let p = &bundle[q];
        let (rows, dims) = first_layer_rows(&fold_ys, Ghost(ri), Ghost(reduced@));
        match eq_height_batch_stmt(
            rows.as_slice(),
            dims.as_slice(),
            chal.query_indices[q] / 2,
            p.first_layer.siblings.as_slice(),
            view.first_layer_commitment[0],
            &p.first_layer,
        ) {
            Some(s) => {
                out.push(s);
            },
            None => {
                return Ok(None);
            },
        }
        q += 1;
    }
    proof {
        assert(claims_of(out@) =~= want);
    }
    Ok(Some(out))
}

/// States the commit-phase rounds of a query.
fn collect_round_stmts(
    rounds: &Vec<CommitPhaseStepView>,
    commits: &Vec<Vec<[u8; 32]>>,
    betas: &Vec<Challenge>,
    start: ChainCursor,
    reduced: &Vec<(usize, Challenge)>,
    p: &FriChalMmcsQueryProof,
    out: &mut Vec<MmcsPathStatement>,
    Ghost(c): Ghost<ChainInput>,
) -> (r: Result<(), RoundError>)
    requires
        c.rounds == rounds@,
        c.betas == evals_of(betas@),
        c.ros == ro_views(reduced@),
        start@ == c.state(0),
        p.commit_paths@.len() == rounds@.len(),
    ensures
        match first_some(rounds@.len(), |r: int| round_stmt_report(c, commits@, *p, r)) {
            Some(e) => r == Err::<(), RoundError>(e),
            None => r == Ok::<(), RoundError>(()) && claims_of(final(out)@) == claims_of(old(out)@)
                + Seq::new(rounds@.len(), |r: int| round_claim(c, commits@, r)),
        },
{
    let ghost f = |r: int| round_stmt_report(c, commits@, *p, r);
    let ghost want = Seq::new(rounds@.len(), |r: int| round_claim(c, commits@, r));
    let ghost o0 = out@;
    let mut cur: ChainCursor = start;
    let mut round: usize = 0;
    proof {
        assert(claims_of(out@) =~= claims_of(o0) + want.take(0));
    }
    while round < rounds.len()
        invariant
            round <= rounds.len(),
            c.rounds == rounds@,
            c.betas == evals_of(betas@),
            c.ros == ro_views(reduced@),
            p.commit_paths@.len() == rounds@.len(),
            f == (|r: int| round_stmt_report(c, commits@, *p, r)),
            want == Seq::new(rounds@.len(), |r: int| round_claim(c, commits@, r)),
            first_some(round as nat, f) is None,
            cur@ == c.state(round as nat),
            cur.joined <= reduced@.len(),
            claims_of(out@) == claims_of(o0) + want.take(round as int),
        decreases rounds.len() - round,
    {
        proof {
            assert(first_some((round + 1) as nat, f) == f(round as int));
            if f(round as int) is Some {
                lemma_first_some_stops((round + 1) as nat, rounds@.len(), f);
            }
        }
        let opening = &rounds[round];
        if opening.sibling_values.len() == 0 {
            return Err(RoundError::Sibling(round));
        }
        if round >= commits.len() || commits[round].len() == 0 {
            return Err(RoundError::Commitment(round));
        }
        let sibling: Challenge = opening.sibling_values[0];
        let (v0, v1) = cur.pair(reduced.as_slice(), sibling);
        let row = flatten_pair(&v0, &v1);
        let index: usize = cur.index / 2;
        if round >= p.commit_siblings.len() || !same_digests(
            &p.commit_siblings[round],
            &opening.opening_proof,
        ) || round >= p.commit_indices.len() || p.commit_indices[round] as usize != index
            || p.commit_paths[round].depth as usize != opening.opening_proof.len() {
            return Err(RoundError::Meta(round));
        }
        if round >= betas.len() {
            return Err(RoundError::Beta(round));
        }
        if !cur.foldable() {
            return Err(RoundError::Height(round));
        }
        let ghost before = out@;
        out.push(
            MmcsPathStatement {
                row,
                siblings: copy_digests(p.commit_siblings[round].as_slice()),
                index,
                root: commits[round][0],
            },
        );
        proof {
            assert(claims_of(out@) =~= claims_of(before).push(want[round as int]));
            assert(claims_of(out@) =~= claims_of(o0) + want.take(round + 1));
            assert(c.betas[round as int] == betas@[round as int]@);
        }
        cur = cur.advance(reduced.as_slice(), betas[round], sibling);
        round += 1;
    }
    proof {
        assert(want.take(round as int) =~= want);
    }
    Ok(())
}

/// States the commit-phase rounds of the queries.
fn collect_chal_commit_stmts(
    proof: &StarkProofView,
    chal: &AggFriChallenges,
    width: usize,
    bundle: &Vec<FriChalMmcsQueryProof>,
) -> (r: Result<Vec<MmcsPathStatement>, StatementError>)
    requires
        rounds_fit(proof.opening_proof, chal.log_blowup),
        bundle@.len() <= proof.opening_proof.fri_proof.query_proofs@.len(),
    ensures
        match first_some(
            bundle@.len(),
            |q: int| commit_stmt_report(query_of(*proof, *chal, q), width, bundle@[q]),
        ) {
            Some(e) => r == Err::<Vec<MmcsPathStatement>, StatementError>(e),
            None => r matches Ok(s) && claims_of(s@) == commit_claims(
                *proof,
                *chal,
                bundle@.len(),
            ),
        },
{
    let view = &proof.opening_proof;
    let ghost f = |q: int| commit_stmt_report(query_of(*proof, *chal, q), width, bundle@[q]);
    let mut out: Vec<MmcsPathStatement> = Vec::new();
    let mut q: usize = 0;
    proof {
        assert(claims_of(out@) =~= commit_claims(*proof, *chal, 0));
    }
    while q < bundle.len()
        invariant
            q <= bundle.len(),
            *view == proof.opening_proof,
            rounds_fit(proof.opening_proof, chal.log_blowup),
            bundle@.len() <= proof.opening_proof.fri_proof.query_proofs@.len(),
            f == (|q: int| commit_stmt_report(query_of(*proof, *chal, q), width, bundle@[q])),
            first_some(q as nat, f) is None,
            claims_of(out@) == commit_claims(*proof, *chal, q as nat),
        decreases bundle.len() - q,
    {
        let ghost ri = query_of(*proof, *chal, q as int);
        let ghost c = ri_chain(ri);
        proof {
            assert(first_some((q + 1) as nat, f) == f(q as int));
            if f(q as int) is Some {
                lemma_first_some_stops((q + 1) as nat, bundle@.len(), f);
            }
        }
        let qp = &view.fri_proof.query_proofs[q];
        if bundle[q].commit_paths.len() != qp.commit_phase_openings.len() {
            return Err(StatementError::Chal(ChalMmcsError::PathCount(q)));
        }
        let (reduced, _) = match reconstruct_query_ro(proof, chal, view, q, width) {
            Ok(x) => x,
            Err(e) => {
                return Err(StatementError::Chal(ChalMmcsError::Openings(q, e)));
            },
        };
        proof {
            assert(ro_views(reduced@) =~= folded_openings(ri));
        }
        let start = ChainCursor::start(
            chal.query_indices[q],
            chal.extra_query_index_bits,
            qp.commit_phase_openings.len(),
            chal.log_blowup,
        );
        if let Err(e) = collect_round_stmts(
            &qp.commit_phase_openings,
            &view.fri_proof.commit_phase_commits,
            &chal.betas,
            start,
            &reduced,
            &bundle[q],
            &mut out,
            Ghost(c),
        ) {
            return Err(StatementError::Chal(ChalMmcsError::Round(q, e)));
        }
        q += 1;
    }
    Ok(out)
}

/// Some statement is of depth `d`.
spec fn occurs(s: Seq<MmcsPathStatement>, d: usize) -> bool {
    exists|k: int| 0 <= k < s.len() && (#[trigger] s[k]).siblings.len() == d
}

/// A depth that occurs has statements.
proof fn lemma_depth_kept(s: Seq<MmcsPathStatement>, d: usize)
    requires
        occurs(s, d),
    ensures
        of_depth(claims_of(s), d as int).len() > 0,
{
    broadcast use vstd::seq_lib::group_seq_properties;

    let k = choose|k: int| 0 <= k < s.len() && (#[trigger] s[k]).siblings.len() == d;
    let claims = claims_of(s);
    assert(claims[k].siblings.len() == d);
    assert(claims.contains(claims[k]));
    assert(of_depth(claims, d as int).contains(claims[k]));
}

/// The depths that occur, shallowest first.
fn depths_of(s: &Vec<MmcsPathStatement>) -> (r: Vec<usize>)
    ensures
        forall|i: int, j: int| 0 <= i < j < r@.len() ==> #[trigger] r@[i] < #[trigger] r@[j],
        forall|k: int|
            0 <= k < s@.len() ==> r@.contains((#[trigger] s@[k]).siblings.len()),
        forall|i: int| 0 <= i < r@.len() ==> occurs(s@, #[trigger] r@[i]),
{
    let mut r: Vec<usize> = Vec::new();
    let mut k: usize = 0;
    while k < s.len()
        invariant
            k <= s.len(),
            forall|i: int, j: int| 0 <= i < j < r@.len() ==> #[trigger] r@[i] < #[trigger] r@[j],
            forall|m: int|
                0 <= m < k ==> r@.contains((#[trigger] s@[m]).siblings.len()),
            forall|i: int| 0 <= i < r@.len() ==> occurs(s@, #[trigger] r@[i]),
        decreases s.len() - k,
    {
        let d: usize = s[k].siblings.len();
        let mut p: usize = 0;
        while p < r.len() && r[p] < d
            invariant
                p <= r.len(),
                forall|i: int| 0 <= i < p ==> #[trigger] r@[i] < d,
            decreases r.len() - p,
        {
            p += 1;
        }
        let ghost r0 = r@;
        if p == r.len() || r[p] != d {
            r.insert(p, d);
            proof {
                assert(r@ =~= r0.insert(p as int, d));
                assert(s@[k as int].siblings.len() == d);
                assert forall|i: int| 0 <= i < r@.len() implies occurs(s@, #[trigger] r@[i]) by {
                    if i < p {
                        assert(occurs(s@, r0[i]));
                    } else if i > p {
                        assert(occurs(s@, r0[i - 1]));
                    }
                }
                assert forall|i: int, j: int| 0 <= i < j < r@.len() implies #[trigger] r@[i]
                    < #[trigger] r@[j] by {
                    let i0 = if i < p {
                        i
                    } else {
                        i - 1
                    };
                    let j0 = if j < p {
                        j
                    } else {
                        j - 1
                    };
                    if i == p {
                        if j0 > p {
                            assert(r0[p as int] < r0[j0]);
                        }
                    } else if j != p {
                        assert(r0[i0] < r0[j0]);
                    } else {
                        assert(r0[i] < d);
                    }
                }
                assert forall|m: int| 0 <= m < k implies r@.contains(
                    (#[trigger] s@[m]).siblings.len(),
                ) by {
                    let x = s@[m].siblings.len();
                    let at = choose|i: int| 0 <= i < r0.len() && r0[i] == x;
                    assert(r0.contains(x));
                    if at < p {
                        assert(r@[at] == x);
                    } else {
                        assert(r@[at + 1] == x);
                    }
                }
            }
        }
        proof {
            assert(r@[p as int] == d);
        }
        k += 1;
    }
    r
}

/// The statements of a depth.
fn of_depth_stmts(s: &Vec<MmcsPathStatement>, d: usize) -> (r: Vec<MmcsPathStatement>)
    ensures
        claims_of(r@) == of_depth(claims_of(s@), d as int),
{
    let ghost f = |c: PathClaim| c.siblings.len() == d as int;
    let ghost all = claims_of(s@);
    let mut r: Vec<MmcsPathStatement> = Vec::new();
    let mut i: usize = 0;
    proof {
        reveal(Seq::filter);
        assert(claims_of(r@) =~= all.take(0).filter(f));
    }
    while i < s.len()
        invariant
            i <= s.len(),
            all == claims_of(s@),
            f == (|c: PathClaim| c.siblings.len() == d as int),
            claims_of(r@) == all.take(i as int).filter(f),
        decreases s.len() - i,
    {
        let ghost r0 = r@;
        proof {
            reveal(Seq::filter);
            assert(all.take(i + 1).drop_last() =~= all.take(i as int));
            assert(all.take(i + 1).last() == claim_of(s@[i as int]));
        }
        if s[i].siblings.len() == d {
            r.push(copy_statement(&s[i]));
            proof {
                assert(claims_of(r@) =~= claims_of(r0).push(claim_of(s@[i as int])));
            }
        }
        i += 1;
    }
    proof {
        assert(all.take(i as int) =~= all);
    }
    r
}

/// Statements sorted by depth.
fn by_depth(s: &Vec<MmcsPathStatement>) -> (r: Vec<(usize, Vec<MmcsPathStatement>)>)
    ensures
        is_by_depth(r@, claims_of(s@)),
{
    let depths = depths_of(s);
    let mut r: Vec<(usize, Vec<MmcsPathStatement>)> = Vec::new();
    let mut i: usize = 0;
    while i < depths.len()
        invariant
            i <= depths.len(),
            r@.len() == i,
            forall|j: int| 0 <= j < i ==> (#[trigger] r@[j]).0 == depths@[j],
            forall|j: int|
                0 <= j < i ==> claims_of((#[trigger] r@[j]).1@) == of_depth(
                    claims_of(s@),
                    r@[j].0 as int,
                ),
        decreases depths.len() - i,
    {
        r.push((depths[i], of_depth_stmts(s, depths[i])));
        i += 1;
    }
    proof {
        let claims = claims_of(s@);
        assert forall|i: int, j: int| 0 <= i < j < r@.len() implies (#[trigger] r@[i]).0 < (
        #[trigger] r@[j]).0 by {
            assert(depths@[i] < depths@[j]);
        }
        assert forall|i: int| 0 <= i < r@.len() implies (#[trigger] r@[i]).1@.len() > 0 by {
            assert(occurs(s@, depths@[i]));
            lemma_depth_kept(s@, depths@[i]);
            assert(claims_of(r@[i].1@).len() == r@[i].1@.len());
        }
        assert forall|k: int| 0 <= k < claims.len() implies has_depth(
            r@,
            (#[trigger] claims[k]).siblings.len() as int,
        ) by {
            let x = s@[k].siblings.len();
            assert(depths@.contains(x));
            assert(claims[k].siblings.len() == x);
            let at = choose|i: int| 0 <= i < depths@.len() && depths@[i] == x;
            assert(r@[at].0 == x);
        }
    }
    r
}

/// Why the openings of a proof cannot be stated, if so.
pub open spec fn statements_report(
    proof: StarkProofView,
    chal: AggFriChallenges,
    width: usize,
    bundle: AggFriMmcsBundle,
) -> Option<StatementError> {
    let n = bundle.val@.len();
    let m = bundle.chal@.len();
    let trace = first_some(
        n,
        |q: int| trace_stmt_report(query_of(proof, chal, q), width, bundle.val@[q]),
    );
    let quot = first_some(
        n,
        |q: int| quot_stmt_report(query_of(proof, chal, q), bundle.val@[q]),
    );
    let first = first_some(
        m,
        |q: int| first_layer_event(query_of(proof, chal, q), width, bundle.chal@[q]),
    );
    if trace is Some {
        trace
    } else if single_quotients(proof, bundle.val@) && quot is Some {
        quot
    } else if proof.opening_proof.first_layer_commitment@.len() == 0 {
        Some(StatementError::Chal(ChalMmcsError::FirstLayerRoot))
    } else if first matches Some(Some(_)) {
        first->0
    } else {
        first_some(
            m,
            |q: int| commit_stmt_report(query_of(proof, chal, q), width, bundle.chal@[q]),
        )
    }
}

/// `s` states the openings of a proof.
pub open spec fn are_statements(
    s: LeafMmcsGroupStatements,
    proof: StarkProofView,
    chal: AggFriChallenges,
    width: usize,
    bundle: AggFriMmcsBundle,
) -> bool {
    let n = bundle.val@.len();
    let m = bundle.chal@.len();
    let first = first_some(
        m,
        |q: int| first_layer_event(query_of(proof, chal, q), width, bundle.chal@[q]),
    );
    &&& claims_of(s.val_trace@) == Seq::new(n, |q: int| trace_claim(query_of(proof, chal, q)))
    &&& s.val_quot is Some <==> single_quotients(proof, bundle.val@)
    &&& s.val_quot matches Some(v) ==> claims_of(v@) == Seq::new(
        n,
        |q: int| quot_claim(query_of(proof, chal, q)),
    )
    &&& s.val_quot_batch is Some <==> n > 0 && !single_quotients(proof, bundle.val@)
        && batched_quotients(proof, chal, bundle.val@)
    &&& s.val_quot_batch matches Some(v) ==> claims_of(v@) == Seq::new(
        n,
        |q: int| quot_batch_claim(query_of(proof, chal, q), bundle.val@[q]),
    )
    &&& s.chal_first_layer is Some <==> first is None
    &&& s.chal_first_layer matches Some(v) ==> claims_of(v@) == Seq::new(
        m,
        |q: int| first_layer_claim(query_of(proof, chal, q), bundle.chal@[q]),
    )
    &&& is_by_depth(s.chal_commit@, commit_claims(proof, chal, m))
}

/// The outcome of stating the openings of a proof.
pub open spec fn statements_outcome(
    proof: StarkProofView,
    chal: AggFriChallenges,
    width: usize,
    bundle: AggFriMmcsBundle,
    r: Result<LeafMmcsGroupStatements, StatementError>,
) -> bool {
    match statements_report(proof, chal, width, bundle) {
        Some(e) => r == Err::<LeafMmcsGroupStatements, StatementError>(e),
        None => r matches Ok(s) && are_statements(s, proof, chal, width, bundle),
    }
}

/// States the openings of a proof, given the challenges and the shared positions.
pub fn collect_statements(
    proof: &StarkProofView,
    chal: &AggFriChallenges,
    geo: &ValGeometry,
    trace_width: usize,
    bundle: &AggFriMmcsBundle,
) -> (r: Result<LeafMmcsGroupStatements, StatementError>)
    requires
        geo.of(*proof, *chal),
        rounds_fit(proof.opening_proof, chal.log_blowup),
        bundle.val@.len() <= proof.opening_proof.fri_proof.query_proofs@.len(),
        bundle.chal@.len() <= proof.opening_proof.fri_proof.query_proofs@.len(),
    ensures
        statements_outcome(*proof, *chal, trace_width, *bundle, r),
{
    let val_trace = match collect_val_trace_stmts(proof, chal, geo, trace_width, &bundle.val) {
        Ok(v) => v,
        Err(e) => {
            return Err(e);
        },
    };
    proof {
        let f = |q: int|
            trace_stmt_report(query_of(*proof, *chal, q), trace_width, bundle.val@[q]);
        assert forall|q: int| 0 <= q < bundle.val@.len() implies trace_row_report(
            #[trigger] query_of(*proof, *chal, q),
            trace_width,
        ) is None by {
            lemma_first_some_none(bundle.val@.len(), f, q);
            assert(f(q) is None);
        }
    }
    let val_quot = match collect_val_quot_stmts(
        proof,
        chal,
        geo,
        Ghost(trace_width),
        &bundle.val,
    ) {
        Ok(v) => v,
        Err(e) => {
            return Err(e);
        },
    };
    if proof.opening_proof.first_layer_commitment.len() == 0 {
        return Err(StatementError::Chal(ChalMmcsError::FirstLayerRoot));
    }
    let chal_first_layer = match collect_chal_first_layer_stmts(
        proof,
        chal,
        trace_width,
        &bundle.chal,
    ) {
        Ok(v) => v,
        Err(e) => {
            return Err(e);
        },
    };
    let flat = match collect_chal_commit_stmts(proof, chal, trace_width, &bundle.chal) {
        Ok(v) => v,
        Err(e) => {
            return Err(e);
        },
    };
    let chal_commit = by_depth(&flat);
    let val_quot_batch = if val_quot.is_none() && bundle.val.len() > 0 {
        collect_val_quot_batch_stmts(proof, chal, geo, Ghost(trace_width), &bundle.val)
    } else {
        None
    };
    Ok(
        LeafMmcsGroupStatements {
            val_trace,
            val_quot,
            val_quot_batch,
            chal_first_layer,
            chal_commit,
        },
    )
}

} // verus!
