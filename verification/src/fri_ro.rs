//! Reduced openings of a query.
//!
//! The opened rows of a query are reduced at the evaluation points, combined per domain height
//! with powers of the column challenge, corrected by `lambda v_n`, and folded once along the
//! ordinate. The results, highest domain first, are what the commit phase folds further.
use vstd::prelude::*;

use crate::agg_constraints::AGG_WIDTH;
use crate::bits::{is_pow2, lemma_exp2_monotone, log2_strict, pow2_usize, shift_right, shr};
use crate::circle::{
    cfft_index_ok, cfft_permute_index, cfft_permuted, lemma_exp2_30, nth_point, point_v_n,
    standard_nth_point, CircPoint,
};
use crate::deep_ro_native::{
    deep_defined, deep_reduced, lambda_corrected, projective_denominator,
    try_deep_quotient_reduce_row, try_from_projective_line,
};
use crate::domains::{
    chunk_log_size, has_next, has_quotient_domain, next_coordinate, next_point,
    quotient_chunk_logs, quotient_domain_fits,
};
use crate::ext::{eadd, emul, eone, epow, esquare, evals_of, ezero, Challenge, Ext};
use crate::ext_ring::lemma_escale_is_emul;
use crate::field::{vals, Val};
use crate::fri_fold_native::{fold_pair, fold_y_row, y_twiddle_inv};
use crate::fri_fs_replay::AggFriChallenges;
use crate::pcs_view::{CircleInputProofView, CirclePcsProofView, StarkProofView};

verus! {

/// One first-layer fold of a query.
#[derive(Debug, Clone)]
pub struct FoldYWitness {
    pub index: usize,
    pub log_folded_height: usize,
    pub beta: Challenge,
    pub v0: Challenge,
    pub v1: Challenge,
}

/// Folded openings by the logarithm of their height, highest first.
pub type ReducedOpenings = Vec<(usize, Challenge)>;

/// Why the openings of a query could not be reduced.
#[derive(Debug, Clone, PartialEq, Eq)]
pub enum RoError {
    ZeroWidth,
    MissingIndex(usize),
    MissingQuery(usize),
    InputBatches(usize),
    FirstLayer,
    ChunkCount(usize),
    QuotientMatrices,
    /// The trace domain or a quotient domain is larger than the field has.
    Domain,
    /// A reduction would divide by zero.
    Pole,
    NextPoint,
    EmptyTraceOpening,
    TraceWidth,
    MissingTraceNext,
    OodWidth,
    /// A domain is higher than the tallest codeword, or the index passes its end.
    Height,
    ChunkWidth(usize),
    LambdaCount,
}

/// What a query's reduction reads.
pub struct RoInput {
    pub proof: StarkProofView,
    pub chal: AggFriChallenges,
    pub view: CirclePcsProofView,
    pub query: int,
}

impl RoInput {
    pub open spec fn input(self) -> CircleInputProofView {
        self.view.fri_proof.query_proofs@[self.query].input_proof
    }

    pub open spec fn query_index(self) -> int {
        self.chal.query_indices@[self.query] as int
    }

    pub open spec fn chunks(self) -> int {
        self.proof.quotient_chunks@.len() as int
    }

    /// The logarithm of the tallest codeword's height.
    pub open spec fn log_max_height(self) -> int {
        self.view.fri_proof.commit_phase_commits@.len() + self.chal.log_blowup + 1
    }

    pub open spec fn trace_height(self) -> int {
        self.proof.degree_bits + self.chal.log_blowup
    }

    pub open spec fn quotient_height(self) -> int {
        chunk_log_size(self.proof.degree_bits as nat, self.chunks()) + self.chal.log_blowup
    }

    /// The query's position in the domain of a height.
    pub open spec fn index_at(self, h: int) -> int {
        shr(self.query_index(), (self.log_max_height() - h) as nat)
    }

    /// The query's point in the domain of a height.
    pub open spec fn point_at(self, h: int) -> (int, int) {
        nth_point(h as nat, cfft_permuted(self.index_at(h), h as nat))
    }

    pub open spec fn height_ok(self, h: int) -> bool {
        1 <= h <= 30 && h <= self.log_max_height() && cfft_index_ok(self.index_at(h), h as nat)
    }

    pub open spec fn zeta_next(self) -> Ext {
        next_coordinate(self.chal.zeta@, self.proof.degree_bits as nat)
    }

    pub open spec fn trace_row(self) -> Seq<Val> {
        self.input().input_openings@[0].opened_values@[0]@
    }

    pub open spec fn chunk_row(self, i: int) -> Seq<Val> {
        self.input().input_openings@[1].opened_values@[i]@
    }

    /// A row reduced at `zeta` in the domain of height `h`.
    pub open spec fn reduced(self, h: int, zeta: Ext, row: Seq<Val>, at_zeta: Seq<Challenge>) -> Ext {
        let p = self.point_at(h);
        deep_reduced(self.chal.batch_alpha@, p.0, p.1, zeta, vals(row), evals_of(at_zeta))
    }

    pub open spec fn reducible(self, h: int, zeta: Ext) -> bool {
        let p = self.point_at(h);
        deep_defined(p.0, p.1, zeta)
    }

    /// Offset and sum after the trace openings.
    pub open spec fn trace_state(self) -> (Ext, Ext) {
        let a = self.chal.batch_alpha@;
        let h = self.trace_height();
        let w = self.trace_row().len();
        accumulated(
            accumulated(
                (eone(), ezero()),
                a,
                w,
                self.reduced(h, self.chal.zeta@, self.trace_row(), self.proof.trace_local@),
            ),
            a,
            w,
            self.reduced(h, self.zeta_next(), self.trace_row(), self.proof.trace_next->0@),
        )
    }

    /// Offset and sum at the quotient height after `n` chunks.
    pub open spec fn quotient_state(self, n: nat) -> (Ext, Ext)
        decreases n,
    {
        if n == 0 {
            if self.quotient_height() == self.trace_height() {
                self.trace_state()
            } else {
                (eone(), ezero())
            }
        } else {
            let i = n - 1;
            accumulated(
                self.quotient_state(i as nat),
                self.chal.batch_alpha@,
                self.chunk_row(i).len(),
                self.reduced(
                    self.quotient_height(),
                    self.chal.zeta@,
                    self.chunk_row(i),
                    self.proof.quotient_chunks@[i]@,
                ),
            )
        }
    }

    /// Heights and sums, lowest first.
    pub open spec fn sums(self) -> Seq<(int, Ext)> {
        let q = self.quotient_state(self.chunks() as nat).1;
        if self.quotient_height() == self.trace_height() {
            seq![(self.trace_height(), q)]
        } else {
            seq![(self.trace_height(), self.trace_state().1), (self.quotient_height(), q)]
        }
    }

    /// The corrected sum of entry `k`.
    pub open spec fn corrected(self, k: int) -> Ext {
        let (h, ro) = self.sums()[k];
        lambda_corrected(
            ro,
            self.view.lambdas@[k]@,
            self.point_at(h).0,
            (h - self.chal.log_blowup) as nat,
        )
    }

    /// The pair folded for entry `k`.
    pub open spec fn pair(self, k: int) -> (Ext, Ext) {
        let (h, ro) = self.sums()[k];
        let sib = self.input().first_layer_siblings@[k]@;
        if self.index_at(h) % 2 == 0 {
            (self.corrected(k), sib)
        } else {
            (sib, self.corrected(k))
        }
    }

    /// The position of the fold of entry `k`.
    pub open spec fn fold_index(self, k: int) -> int {
        self.index_at(self.sums()[k].0) / 2
    }

    /// The folded value of entry `k`.
    pub open spec fn folded(self, k: int) -> Ext {
        let h = self.sums()[k].0;
        let (v0, v1) = self.pair(k);
        fold_pair(
            y_twiddle_inv(self.fold_index(k), (h - 1) as nat),
            self.chal.bivariate_beta@,
            v0,
            v1,
        )
    }

    /// Why the shape does not allow a reduction, if so.
    pub open spec fn shape_report(self, trace_width: usize) -> Option<RoError> {
        let q = self.query;
        if trace_width == 0 {
            Some(RoError::ZeroWidth)
        } else if q >= self.chal.query_indices@.len() {
            Some(RoError::MissingIndex(q as usize))
        } else if q >= self.view.fri_proof.query_proofs@.len() {
            Some(RoError::MissingQuery(q as usize))
        } else if self.input().input_openings@.len() != 2 {
            Some(RoError::InputBatches(self.input().input_openings@.len() as usize))
        } else if self.input().first_layer_siblings@.len() != self.view.lambdas@.len() {
            Some(RoError::FirstLayer)
        } else if !is_pow2(self.chunks()) {
            Some(RoError::ChunkCount(self.chunks() as usize))
        } else if self.input().input_openings@[1].opened_values@.len() != self.chunks() {
            Some(RoError::QuotientMatrices)
        } else if !quotient_domain_fits(self.proof.degree_bits as nat, self.chunks()) {
            Some(RoError::Domain)
        } else {
            None
        }
    }

    /// Why the trace openings cannot be reduced, if so.
    pub open spec fn trace_report(self, trace_width: usize) -> Option<RoError> {
        let h = self.trace_height();
        if projective_denominator(self.chal.zeta@) == ezero() {
            Some(RoError::Pole)
        } else if !has_next(self.chal.zeta@, self.proof.degree_bits as nat) {
            Some(RoError::NextPoint)
        } else if self.input().input_openings@[0].opened_values@.len() == 0 {
            Some(RoError::EmptyTraceOpening)
        } else if self.trace_row().len() != trace_width {
            Some(RoError::TraceWidth)
        } else if self.proof.trace_next is None {
            Some(RoError::MissingTraceNext)
        } else if self.proof.trace_local@.len() != trace_width || self.proof.trace_next->0@.len()
            != trace_width {
            Some(RoError::OodWidth)
        } else if !self.height_ok(h) {
            Some(RoError::Height)
        } else if !self.reducible(h, self.chal.zeta@) || !self.reducible(h, self.zeta_next()) {
            Some(RoError::Pole)
        } else {
            None
        }
    }

    /// Why chunk `i` cannot be reduced, if so.
    pub open spec fn chunk_report(self, i: int) -> Option<RoError> {
        let h = self.quotient_height();
        if self.chunk_row(i).len() != self.proof.quotient_chunks@[i]@.len() {
            Some(RoError::ChunkWidth(i as usize))
        } else if !self.height_ok(h) {
            Some(RoError::Height)
        } else if !self.reducible(h, self.chal.zeta@) {
            Some(RoError::Pole)
        } else {
            None
        }
    }

    /// Why the openings cannot be reduced, if so.
    pub open spec fn report(self, trace_width: usize) -> Option<RoError> {
        let chunks = crate::checks::first_some(
            self.chunks() as nat,
            |i: int| self.chunk_report(i),
        );
        if self.shape_report(trace_width) is Some {
            self.shape_report(trace_width)
        } else if self.trace_report(trace_width) is Some {
            self.trace_report(trace_width)
        } else if chunks is Some {
            chunks
        } else if self.sums().len() != self.view.lambdas@.len() {
            Some(RoError::LambdaCount)
        } else {
            None
        }
    }

    /// `ros` and `fold_ys` are the folded openings and the folds that gave them.
    pub open spec fn is_result(self, ros: Seq<(usize, Challenge)>, fold_ys: Seq<FoldYWitness>) -> bool {
        let n = self.sums().len();
        &&& ros.len() == n
        &&& fold_ys.len() == n
        &&& forall|k: int|
            0 <= k < n ==> {
                &&& (#[trigger] fold_ys[k]).index == self.fold_index(k)
                &&& fold_ys[k].log_folded_height == self.sums()[k].0 - 1
                &&& fold_ys[k].beta@ == self.chal.bivariate_beta@
                &&& (fold_ys[k].v0@, fold_ys[k].v1@) == self.pair(k)
            }
        &&& forall|k: int|
            0 <= k < n ==> {
                &&& (#[trigger] ros[k]).0 == self.sums()[n - 1 - k].0 - 1
                &&& ros[k].1@ == self.folded(n - 1 - k)
            }
    }
}

/// One more reduced row of width `w` at a height: offset and sum.
pub open spec fn accumulated(state: (Ext, Ext), alpha: Ext, w: nat, deep: Ext) -> (Ext, Ext) {
    (emul(state.0, esquare(epow(alpha, w))), eadd(state.1, emul(state.0, deep)))
}

fn accumulate(state: &mut (Challenge, Challenge), alpha: &Challenge, width: usize, deep: &Challenge)
    ensures
        (final(state).0@, final(state).1@) == accumulated(
            (old(state).0@, old(state).1@),
            alpha@,
            width as nat,
            deep@,
        ),
{
    let off = state.0;
    let sum = state.1.plus(&off.times(deep));
    let next = off.times(&alpha.exp(width).square());
    *state = (next, sum);
}

/// The query's point and position in the domain of height `h`, if it has one.
pub(crate) fn locate(query_index: usize, log_max: usize, h: usize, Ghost(input): Ghost<RoInput>) -> (r: Option<
    (CircPoint, usize),
>)
    requires
        query_index == input.query_index(),
        log_max == input.log_max_height(),
    ensures
        r is Some <==> input.height_ok(h as int),
        r matches Some(p) ==> p.0@ == input.point_at(h as int) && p.1 == input.index_at(h as int),
{
    if h < 1 || h > 30 || h > log_max {
        return None;
    }
    let idx: usize = shift_right(query_index, log_max - h);
    proof {
        lemma_exp2_monotone(h as nat, 30);
        lemma_exp2_30();
    }
    if idx % 2 == 1 && idx / 2 >= pow2_usize(h) {
        return None;
    }
    let orig: usize = cfft_permute_index(idx, h);
    Some((standard_nth_point(h, orig), idx))
}

/// The reduced openings and first-layer folds of one query.
pub fn reconstruct_query_ro(
    proof: &StarkProofView,
    chal: &AggFriChallenges,
    pcs_view: &CirclePcsProofView,
    query: usize,
    trace_width: usize,
) -> (r: Result<(ReducedOpenings, Vec<FoldYWitness>), RoError>)
    requires
        pcs_view.fri_proof.commit_phase_commits@.len() + chal.log_blowup + 1 <= usize::MAX,
    ensures
        ({
            let input = (RoInput {
                proof: *proof,
                chal: *chal,
                view: *pcs_view,
                query: query as int,
            });
            match input.report(trace_width) {
                Some(e) => r == Err::<(ReducedOpenings, Vec<FoldYWitness>), RoError>(e),
                None => r matches Ok(out) && input.is_result(out.0@, out.1@),
            }
        }),
{
    let ghost ri = RoInput { proof: *proof, chal: *chal, view: *pcs_view, query: query as int };
    if trace_width == 0 {
        return Err(RoError::ZeroWidth);
    }
    if query >= chal.query_indices.len() {
        return Err(RoError::MissingIndex(query));
    }
    let query_index: usize = chal.query_indices[query];
    if query >= pcs_view.fri_proof.query_proofs.len() {
        return Err(RoError::MissingQuery(query));
    }
    let input = &pcs_view.fri_proof.query_proofs[query].input_proof;
    if input.input_openings.len() != 2 {
        return Err(RoError::InputBatches(input.input_openings.len()));
    }
    if input.first_layer_siblings.len() != pcs_view.lambdas.len() {
        return Err(RoError::FirstLayer);
    }
    let num_chunks: usize = proof.quotient_chunks.len();
    let log_chunks: usize = match log2_strict(num_chunks) {
        Some(k) => k,
        None => {
            return Err(RoError::ChunkCount(num_chunks));
        },
    };
    if input.input_openings[1].opened_values.len() != num_chunks {
        return Err(RoError::QuotientMatrices);
    }
    if !has_quotient_domain(proof.degree_bits, log_chunks, num_chunks) {
        return Err(RoError::Domain);
    }
    let log_blowup: usize = chal.log_blowup;
    let zeta = chal.zeta;
    let alpha = chal.batch_alpha;
    if try_from_projective_line(zeta).is_none() {
        return Err(RoError::Pole);
    }
    let zeta_next = match next_point(proof.degree_bits, zeta) {
        Some(z) => z,
        None => {
            return Err(RoError::NextPoint);
        },
    };
    let log_max: usize = pcs_view.fri_proof.commit_phase_commits.len() + log_blowup + 1;
    // Trace openings at both evaluation points.
    if input.input_openings[0].opened_values.len() == 0 {
        return Err(RoError::EmptyTraceOpening);
    }
    let opened: &Vec<Val> = &input.input_openings[0].opened_values[0];
    if opened.len() != trace_width {
        return Err(RoError::TraceWidth);
    }
    let trace_next: &Vec<Challenge> = match &proof.trace_next {
        Some(v) => v,
        None => {
            return Err(RoError::MissingTraceNext);
        },
    };
    if proof.trace_local.len() != trace_width || trace_next.len() != trace_width {
        return Err(RoError::OodWidth);
    }
    if log_blowup > 30 {
        return Err(RoError::Height);
    }
    let trace_height: usize = proof.degree_bits + log_blowup;
    let (tp, _) = match locate(query_index, log_max, trace_height, Ghost(ri)) {
        Some(p) => p,
        None => {
            return Err(RoError::Height);
        },
    };
    let mut trace_state: (Challenge, Challenge) = (Challenge::one(), Challenge::zero());
    let deep0 = match try_deep_quotient_reduce_row(
        alpha,
        tp.x,
        tp.y,
        zeta,
        opened.as_slice(),
        proof.trace_local.as_slice(),
    ) {
        Some(d) => d,
        None => {
            return Err(RoError::Pole);
        },
    };
    accumulate(&mut trace_state, &alpha, opened.len(), &deep0);
    let deep1 = match try_deep_quotient_reduce_row(
        alpha,
        tp.x,
        tp.y,
        zeta_next,
        opened.as_slice(),
        trace_next.as_slice(),
    ) {
        Some(d) => d,
        None => {
            return Err(RoError::Pole);
        },
    };
    accumulate(&mut trace_state, &alpha, opened.len(), &deep1);
    proof {
        assert((trace_state.0@, trace_state.1@) == ri.trace_state());
        assert(ri.shape_report(trace_width) is None);
        assert(ri.trace_report(trace_width) is None);
    }
    // Quotient chunks at the first evaluation point; all their domains have one size.
    let logs = quotient_chunk_logs(proof.degree_bits, num_chunks);
    let ghost qh: int = ri.quotient_height();
    let mut quot_state: (Challenge, Challenge) = if logs[0] == proof.degree_bits {
        trace_state
    } else {
        (Challenge::one(), Challenge::zero())
    };
    let ghost f = |i: int| ri.chunk_report(i);
    let mut i: usize = 0;
    while i < num_chunks
        invariant
            i <= num_chunks,
            0 < num_chunks == ri.chunks(),
            ri == (RoInput {
                proof: *proof,
                chal: *chal,
                view: *pcs_view,
                query: query as int,
            }),
            *input == ri.input(),
            input.input_openings@.len() == 2,
            input.input_openings@[1].opened_values@.len() == num_chunks,
            query_index == ri.query_index(),
            log_max == ri.log_max_height(),
            log_blowup == chal.log_blowup <= 30,
            alpha == chal.batch_alpha,
            zeta == chal.zeta,
            logs@.len() == num_chunks,
            proof.degree_bits <= 29,
            forall|j: int|
                0 <= j < logs@.len() ==> (#[trigger] logs@[j]) == chunk_log_size(
                    proof.degree_bits as nat,
                    num_chunks as int,
                ),
            qh == ri.quotient_height(),
            f == (|i: int| ri.chunk_report(i)),
            crate::checks::first_some(i as nat, f) is None,
            i > 0 ==> ri.height_ok(qh),
            ri.shape_report(trace_width) is None,
            ri.trace_report(trace_width) is None,
            (quot_state.0@, quot_state.1@) == ri.quotient_state(i as nat),
        decreases num_chunks - i,
    {
        let row: &Vec<Val> = &input.input_openings[1].opened_values[i];
        let at_zeta: &Vec<Challenge> = &proof.quotient_chunks[i];
        proof {
            assert(f(i as int) == ri.chunk_report(i as int));
            assert(crate::checks::first_some((i + 1) as nat, f) == f(i as int));
            if f(i as int) is Some {
                crate::checks::lemma_first_some_stops((i + 1) as nat, num_chunks as nat, f);
            }
        }
        if row.len() != at_zeta.len() {
            return Err(RoError::ChunkWidth(i));
        }
        let h: usize = logs[i] + log_blowup;
        let (p, _) = match locate(query_index, log_max, h, Ghost(ri)) {
            Some(p) => p,
            None => {
                return Err(RoError::Height);
            },
        };
        let deep = match try_deep_quotient_reduce_row(
            alpha,
            p.x,
            p.y,
            zeta,
            row.as_slice(),
            at_zeta.as_slice(),
        ) {
            Some(d) => d,
            None => {
                return Err(RoError::Pole);
            },
        };
        accumulate(&mut quot_state, &alpha, row.len(), &deep);
        i += 1;
    }
    // Heights with their sums, lowest first.
    let quot_height: usize = logs[0] + log_blowup;
    let mut sums: Vec<(usize, Challenge)> = Vec::new();
    if quot_height == trace_height {
        sums.push((trace_height, quot_state.1));
    } else {
        sums.push((trace_height, trace_state.1));
        sums.push((quot_height, quot_state.1));
    }
    if sums.len() != pcs_view.lambdas.len() {
        return Err(RoError::LambdaCount);
    }
    fold_sums(chal, input, pcs_view, query_index, log_max, &sums, Ghost(ri), Ghost(trace_width))
}

/// Corrects and folds the sums of a query.
fn fold_sums(
    chal: &AggFriChallenges,
    input: &CircleInputProofView,
    pcs_view: &CirclePcsProofView,
    query_index: usize,
    log_max: usize,
    sums: &Vec<(usize, Challenge)>,
    Ghost(ri): Ghost<RoInput>,
    Ghost(trace_width): Ghost<usize>,
) -> (r: Result<(ReducedOpenings, Vec<FoldYWitness>), RoError>)
    requires
        *chal == ri.chal,
        *pcs_view == ri.view,
        *input == ri.input(),
        query_index == ri.query_index(),
        log_max == ri.log_max_height(),
        ri.report(trace_width) is None,
        sums@.len() == ri.sums().len(),
        sums@.len() == input.first_layer_siblings@.len(),
        sums@.len() == pcs_view.lambdas@.len(),
        forall|k: int|
            0 <= k < sums@.len() ==> (#[trigger] sums@[k]).0 == ri.sums()[k].0 && sums@[k].1@
                == ri.sums()[k].1 && ri.height_ok(sums@[k].0 as int) && sums@[k].0
                >= chal.log_blowup,
    ensures
        r matches Ok(out) && ri.is_result(out.0@, out.1@),
{
    let mut folded: Vec<(usize, Challenge)> = Vec::new();
    let mut fold_ys: Vec<FoldYWitness> = Vec::new();
    let mut k: usize = 0;
    while k < sums.len()
        invariant
            k <= sums.len(),
            *chal == ri.chal,
            *pcs_view == ri.view,
            *input == ri.input(),
            query_index == ri.query_index(),
            log_max == ri.log_max_height(),
            sums@.len() == ri.sums().len(),
            sums@.len() == input.first_layer_siblings@.len(),
            sums@.len() == pcs_view.lambdas@.len(),
            forall|k: int|
                0 <= k < sums@.len() ==> (#[trigger] sums@[k]).0 == ri.sums()[k].0 && sums@[k].1@
                    == ri.sums()[k].1 && ri.height_ok(sums@[k].0 as int) && sums@[k].0
                    >= chal.log_blowup,
            folded@.len() == k,
            fold_ys@.len() == k,
            forall|j: int|
                0 <= j < k ==> (#[trigger] folded@[j]).0 == ri.sums()[j].0 - 1 && folded@[j].1@
                    == ri.folded(j),
            forall|j: int|
                0 <= j < k ==> {
                    &&& (#[trigger] fold_ys@[j]).index == ri.fold_index(j)
                    &&& fold_ys@[j].log_folded_height == ri.sums()[j].0 - 1
                    &&& fold_ys@[j].beta@ == ri.chal.bivariate_beta@
                    &&& (fold_ys@[j].v0@, fold_ys@[j].v1@) == ri.pair(j)
                },
        decreases sums.len() - k,
    {
        let h: usize = sums[k].0;
        let ro: Challenge = sums[k].1;
        proof {
            assert(ri.height_ok(sums@[k as int].0 as int));
        }
        let (p, idx) = locate(query_index, log_max, h, Ghost(ri)).unwrap();
        let lambda: Challenge = pcs_view.lambdas[k];
        let vn = point_v_n(p.x, h - chal.log_blowup);
        let corrected = ro.minus(&lambda.scale(&vn));
        proof {
            lemma_escale_is_emul(lambda@, vn@);
            assert(corrected@ == ri.corrected(k as int));
        }
        let sib: Challenge = input.first_layer_siblings[k];
        let (v0, v1) = if idx % 2 == 0 {
            (corrected, sib)
        } else {
            (sib, corrected)
        };
        let fold_index: usize = idx / 2;
        let log_folded: usize = h - 1;
        let out = fold_y_row(fold_index, log_folded, chal.bivariate_beta, v0, v1);
        fold_ys.push(
            FoldYWitness {
                index: fold_index,
                log_folded_height: log_folded,
                beta: chal.bivariate_beta,
                v0,
                v1,
            },
        );
        folded.push((log_folded, out));
        proof {
            assert(ri.folded(k as int) == out@);
        }
        k += 1;
    }
    let mut ros: Vec<(usize, Challenge)> = Vec::new();
    let mut j: usize = 0;
    while j < folded.len()
        invariant
            j <= folded.len(),
            folded@.len() == ri.sums().len(),
            ros@.len() == j,
            forall|i: int| 0 <= i < j ==> (#[trigger] ros@[i]) == folded@[folded@.len() - 1 - i],
        decreases folded.len() - j,
    {
        ros.push(folded[folded.len() - 1 - j]);
        j += 1;
    }
    Ok((ros, fold_ys))
}

/// The reduced openings of one query of an aggregation proof.
pub fn reconstruct_agg_query_ro(
    proof: &StarkProofView,
    chal: &AggFriChallenges,
    pcs_view: &CirclePcsProofView,
    query: usize,
) -> (r: Result<(ReducedOpenings, Vec<FoldYWitness>), RoError>)
    requires
        pcs_view.fri_proof.commit_phase_commits@.len() + chal.log_blowup + 1 <= usize::MAX,
    ensures
        ({
            let input = (RoInput {
                proof: *proof,
                chal: *chal,
                view: *pcs_view,
                query: query as int,
            });
            match input.report(AGG_WIDTH) {
                Some(e) => r == Err::<(ReducedOpenings, Vec<FoldYWitness>), RoError>(e),
                None => r matches Ok(out) && input.is_result(out.0@, out.1@),
            }
        }),
{
    reconstruct_query_ro(proof, chal, pcs_view, query, AGG_WIDTH)
}

} // verus!
