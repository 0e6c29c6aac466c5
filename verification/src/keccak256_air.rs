//! Constraint system of the Keccak-256 sponge for fixed message lengths.
//!
//! Columns: 1600 state bits, the `live` flag, and five round-counter bits. Publics: the
//! message bytes followed by the 32 digest bytes.
use vstd::prelude::*;

use crate::agg_constraints::AGG_WIDTH;
use crate::bits::{is_pow2, nat_bit};
use crate::constraint::{
    assert_bits, bit_constraints, evals, ConstraintSink, Expr, Window, WindowVals,
};
use crate::field::{fbool, fmul, fsub, vals, Val};
use crate::keccak_f_air::{bit_vals, LIVE_COL};
use crate::keccak_f_native::{
    final_state, join_digests, keccak256, keccak256_spec, lde_row_to_bytes, num_permutations,
    row_bytes, sponge_witness, state_bits, state_to_bits, val_row_to_bytes, witness_state,
    KECCAK256_OUT, KECCAK_RATE, KECCAK_ROUNDS, KECCAK_STATE_BITS,
};
use crate::matrix::{byte_vals, lemma_append_row, push_bools, push_bytes, RowMajorMatrix};
use crate::sponge_gadgets::{
    bits_value, bits_value_expr, bytes_constraints, constrain_bytes, constrain_hold,
    constrain_round_counter, constrain_second_block, constrain_start, constrain_step, eq_bits,
    eq_bits_const, first_block, first_block_exprs, hold_constraints, rc_bits_from_round,
    rc_select, round_counter_constraints, second_block_constraints, start_constraints,
    step_constraints,
};

verus! {

pub const ROUND_BITS: usize = 5;

pub const ROUND_BIT_COL: usize = 1601;

pub const SPONGE_WIDTH: usize = 1606;

/// Two joined digests.
pub const COMPRESS_MSG_LEN: usize = 64;

/// An aggregation-width row, four bytes per column.
pub const LEAF_MSG_LEN: usize = 264;

/// A quotient row of three columns.
pub const QUOT_LEAF_MSG_LEN: usize = 12;

/// Two extension elements, three columns each.
pub const CHAL_LEAF_MSG_LEN: usize = 24;

/// The message lengths the sponge system is proved for.
pub open spec fn msg_len_supported(len: int) -> bool {
    len == 12 || len == 24 || len == 64 || len == 264
}

fn supported_msg_len(len: usize) -> (r: bool)
    ensures
        r == msg_len_supported(len as int),
{
    len == QUOT_LEAF_MSG_LEN || len == CHAL_LEAF_MSG_LEN || len == COMPRESS_MSG_LEN || len
        == LEAF_MSG_LEN
}

/// The sponge system for messages of `msg_len` bytes.
#[derive(Copy, Clone, Debug)]
pub struct Keccak256SpongeAir {
    pub msg_len: usize,
}

/// The selectors of a sponge row pair.
pub struct SpongeSelectors {
    pub both_live: int,
    pub wrap: int,
    pub cont: int,
    pub to_final: int,
    pub idle: int,
}

/// The selectors without any segment restriction.
pub open spec fn sponge_selectors(w: WindowVals) -> SpongeSelectors {
    let live_c = w.curr[1600];
    let live_n = w.next[1600];
    let round_c = w.curr.subrange(1601, 1606);
    let round_n = w.next.subrange(1601, 1606);
    let both_live = fmul(live_c, live_n);
    let wrap = fmul(eq_bits(round_c, 23), eq_bits(round_n, 0));
    SpongeSelectors {
        both_live,
        wrap,
        cont: fmul(both_live, fsub(1, wrap)),
        to_final: fmul(live_c, fsub(1, live_n)),
        idle: fsub(1, live_c),
    }
}

impl Keccak256SpongeAir {
    /// The system for two joined digests.
    pub fn compress() -> (r: Self)
        ensures
            r.msg_len == COMPRESS_MSG_LEN,
    {
        Keccak256SpongeAir { msg_len: COMPRESS_MSG_LEN }
    }

    /// The system for an aggregation-width row.
    pub fn leaf() -> (r: Self)
        ensures
            r.msg_len == LEAF_MSG_LEN,
    {
        Keccak256SpongeAir { msg_len: LEAF_MSG_LEN }
    }

    /// Number of public values.
    pub fn num_public(&self) -> (r: usize)
        requires
            self.msg_len + 32 <= usize::MAX,
        ensures
            r == self.msg_len + 32,
    {
        self.msg_len + KECCAK256_OUT
    }

    pub fn width(&self) -> (r: usize)
        ensures
            r == SPONGE_WIDTH,
    {
        SPONGE_WIDTH
    }

    pub fn max_constraint_degree(&self) -> (r: Option<usize>)
        ensures
            r == None::<usize>,
    {
        None
    }

    pub fn num_public_values(&self) -> (r: usize)
        requires
            self.msg_len + 32 <= usize::MAX,
        ensures
            r == self.msg_len + 32,
    {
        self.num_public()
    }

    /// The values the system emits on a window.
    pub open spec fn constraints(self, w: WindowVals) -> Seq<int> {
        let len = self.msg_len as int;
        let state_c = w.curr.take(1600);
        let state_n = w.next.take(1600);
        let live_c = w.curr[1600];
        let round_c = w.curr.subrange(1601, 1606);
        let round_val_c = bits_value(round_c);
        let round_val_n = bits_value(w.next.subrange(1601, 1606));
        let rc = rc_select(round_c);
        let s = sponge_selectors(w);
        bit_constraints(w.curr) + round_counter_constraints(live_c, round_c) + step_constraints(
            state_c,
            state_n,
            rc,
            fmul(w.trans, s.cont),
            fmul(w.trans, s.to_final),
            round_val_c,
            round_val_n,
        ) + hold_constraints(w.curr, w.next, fmul(w.trans, s.idle)) + (if len > 136 {
            second_block_constraints(
                state_c,
                state_n,
                rc,
                w.pv,
                0,
                len,
                round_val_n,
                fmul(fmul(w.trans, s.both_live), s.wrap),
            )
        } else {
            Seq::empty()
        }) + start_constraints(
            state_c,
            first_block(w.pv, 0, len),
            live_c,
            round_val_c,
            w.first,
        ) + bytes_constraints(state_c, 0, w.pv.subrange(len, len + 32), s.idle)
    }

    /// Emits the system's constraints: the first row absorbs the message, live rows run the
    /// permutation rounds, a second block is absorbed where the rounds wrap, and idle rows
    /// hold a state whose first bytes are the digest.
    pub fn eval<S: ConstraintSink>(&self, sink: &mut S, w: &Window<S::E>)
        requires
            w.curr@.len() == SPONGE_WIDTH,
            w.next@.len() == SPONGE_WIDTH,
            self.msg_len <= 272,
            w.pv@.len() == self.msg_len + 32,
        ensures
            final(sink).emitted() == old(sink).emitted() + self.constraints(w@),
    {
        let ghost e0 = sink.emitted();
        let one = <S::E as Expr>::lit(1);
        let curr = w.curr.as_slice();
        let next = w.next.as_slice();
        let pv = w.pv.as_slice();
        assert_bits(sink, curr);
        let state_c = vstd::slice::slice_subrange(curr, 0, KECCAK_STATE_BITS);
        let state_n = vstd::slice::slice_subrange(next, 0, KECCAK_STATE_BITS);
        let round_c = vstd::slice::slice_subrange(curr, ROUND_BIT_COL, SPONGE_WIDTH);
        let round_n = vstd::slice::slice_subrange(next, ROUND_BIT_COL, SPONGE_WIDTH);
        proof {
            assert(evals(state_c@) =~= w@.curr.take(1600));
            assert(evals(state_n@) =~= w@.next.take(1600));
            assert(evals(round_c@) =~= w@.curr.subrange(1601, 1606));
            assert(evals(round_n@) =~= w@.next.subrange(1601, 1606));
        }
        let live_c = curr[LIVE_COL].dup();
        let live_n = next[LIVE_COL].dup();
        let round_val_c = bits_value_expr(round_c);
        let round_val_n = bits_value_expr(round_n);
        constrain_round_counter(sink, &live_c, round_c);
        let rc = rc_bits_from_round(round_c);
        let both_live = live_c.times(&live_n);
        let wrap = eq_bits_const(round_c, 23).times(&eq_bits_const(round_n, 0));
        let cont = both_live.times(&one.minus(&wrap));
        let to_final = live_c.times(&one.minus(&live_n));
        let idle = one.minus(&live_c);
        let cont_en = w.trans.times(&cont);
        let final_en = w.trans.times(&to_final);
        let expected = constrain_step(
            sink,
            state_c,
            state_n,
            rc.as_slice(),
            &cont_en,
            &final_en,
            &round_val_c,
            &round_val_n,
        );
        let hold_en = w.trans.times(&idle);
        constrain_hold(sink, curr, next, &hold_en);
        if self.msg_len > KECCAK_RATE {
            let wrap_en = w.trans.times(&both_live).times(&wrap);
            constrain_second_block(
                sink,
                Ghost(evals(state_c@)),
                Ghost(evals(rc@)),
                expected.as_slice(),
                state_n,
                pv,
                0,
                self.msg_len,
                &round_val_n,
                &wrap_en,
            );
        }
        let block = first_block_exprs(pv, 0, self.msg_len);
        constrain_start(sink, state_c, block.as_slice(), &live_c, &round_val_c, &w.first);
        let digest = vstd::slice::slice_subrange(pv, self.msg_len, self.msg_len + KECCAK256_OUT);
        proof {
            assert(evals(digest@) =~= w@.pv.subrange(
                self.msg_len as int,
                self.msg_len as int + 32,
            ));
        }
        constrain_bytes(sink, state_c, 0, digest, &idle);
        proof {
            assert(sink.emitted() =~= e0 + self.constraints(w@));
        }
    }
}

/// A trace row: the state bits, the live flag, and the round counter of a live row.
pub open spec fn sponge_row(bits: Seq<bool>, live: bool, round: int) -> Seq<int> {
    bit_vals(bits).push(fbool(live)) + Seq::new(
        5,
        |k: int| fbool(live && nat_bit(round, k as nat)),
    )
}

/// Row `i` of the sponge trace of a message.
pub open spec fn sponge_trace_row(msg: Seq<u8>, i: int) -> Seq<int> {
    if i < 24 * (msg.len() / 136 + 1) {
        sponge_row(state_bits(witness_state(msg, i)), true, i % 24)
    } else {
        sponge_row(state_bits(final_state(msg)), false, 0)
    }
}

/// `h` doubled until it is at least `need`.
pub open spec fn doubled_to(h: int, need: int) -> int
    decreases 2 * need - h,
{
    if h >= need || h <= 0 {
        h
    } else {
        doubled_to(2 * h, need)
    }
}

/// The number of rows of a sponge trace: the least power of two that is at least 32 and
/// leaves room for one idle row.
pub open spec fn sponge_rows(msg_len: nat) -> int {
    doubled_to(32, 24 * (msg_len as int / 136 + 1) + 1)
}

/// Doubling stops past the need, and not far past it.
proof fn lemma_doubled_to(h: int, need: int)
    requires
        h > 0,
        is_pow2(h),
    ensures
        need <= doubled_to(h, need),
        h <= doubled_to(h, need),
        is_pow2(doubled_to(h, need)),
    decreases 2 * need - h,
{
    if h < need {
        assert((2 * h) / 2 == h && (2 * h) % 2 == 0);
        lemma_doubled_to(2 * h, need);
    }
}

/// A sponge trace has a power-of-two height with room for every round and an idle row.
pub proof fn lemma_sponge_rows(msg_len: nat)
    ensures
        32 <= sponge_rows(msg_len),
        24 * (msg_len as int / 136 + 1) + 1 <= sponge_rows(msg_len),
        is_pow2(sponge_rows(msg_len)),
        msg_len < 136 ==> sponge_rows(msg_len) == 32,
        136 <= msg_len < 272 ==> sponge_rows(msg_len) == 64,
{
    reveal_with_fuel(is_pow2, 7);
    reveal_with_fuel(doubled_to, 3);
    lemma_doubled_to(32, 24 * (msg_len as int / 136 + 1) + 1);
}

/// `m` is the sponge trace of `msg`.
pub open spec fn is_sponge_trace(m: RowMajorMatrix, msg: Seq<u8>) -> bool {
    &&& m.width == SPONGE_WIDTH
    &&& m.wf()
    &&& m.rows() == sponge_rows(msg.len())
    &&& forall|i: int| 0 <= i < m.rows() ==> #[trigger] m.row(i) == sponge_trace_row(msg, i)
}

fn push_round_bits(values: &mut Vec<Val>, live: bool, round: usize)
    ensures
        vals(final(values)@) == vals(old(values)@) + Seq::new(
            5,
            |k: int| fbool(live && nat_bit(round as int, k as nat)),
        ),
{
    let r1: usize = round / 2;
    let r2: usize = r1 / 2;
    let r3: usize = r2 / 2;
    let r4: usize = r3 / 2;
    let bits = [
        live && round % 2 == 1,
        live && r1 % 2 == 1,
        live && r2 % 2 == 1,
        live && r3 % 2 == 1,
        live && r4 % 2 == 1,
    ];
    push_bools(values, vstd::array::array_as_slice(&bits));
    proof {
        reveal_with_fuel(nat_bit, 6);
        assert(Seq::new(5, |i: int| fbool(bits@[i])) =~= Seq::new(
            5,
            |k: int| fbool(live && nat_bit(round as int, k as nat)),
        ));
    }
}

fn push_state_row(
    values: &mut Vec<Val>,
    bits: &[bool; KECCAK_STATE_BITS],
    live: bool,
    round: usize,
)
    ensures
        vals(final(values)@) == vals(old(values)@) + sponge_row(bits@, live, round as int),
{
    let ghost v0 = vals(values@);
    push_bools(values, vstd::array::array_as_slice(bits));
    let flag = [live];
    push_bools(values, vstd::array::array_as_slice(&flag));
    push_round_bits(values, live, round);
    proof {
        assert(vals(values@) =~= v0 + sponge_row(bits@, live, round as int));
    }
}

/// The number of rows of the sponge trace.
fn sponge_height(msg_len: usize) -> (h: usize)
    ensures
        h == sponge_rows(msg_len as nat),
        h > 0,
{
    let need: usize = num_permutations(msg_len) * KECCAK_ROUNDS + 1;
    let mut h: usize = 32;
    while h < need
        invariant
            need == 24 * (msg_len / 136 + 1) + 1,
            sponge_rows(msg_len as nat) == doubled_to(h as int, need as int),
            32 <= h,
            h == 32 || h < 2 * need,
        decreases 2 * need - h,
    {
        h = h * 2;
    }
    h
}

/// Builds the power-of-two sponge trace of a message.
pub fn build_sponge_matrix(msg: &[u8]) -> (m: RowMajorMatrix)
    ensures
        is_sponge_trace(m, msg@),
{
    let (pre_rounds, fin) = sponge_witness(msg);
    let live_rows: usize = pre_rounds.len();
    let target: usize = sponge_height(msg.len());
    let final_bits = state_to_bits(&fin);
    let mut m = RowMajorMatrix { values: Vec::new(), width: SPONGE_WIDTH };
    let mut i: usize = 0;
    while i < target
        invariant
            i <= target,
            target == sponge_rows(msg@.len()),
            target > 0,
            live_rows == 24 * (msg@.len() / 136 + 1),
            live_rows == pre_rounds@.len(),
            forall|k: int|
                0 <= k < pre_rounds@.len() ==> (#[trigger] pre_rounds@[k])@ == witness_state(
                    msg@,
                    k,
                ),
            final_bits@ == state_bits(final_state(msg@)),
            m.width == SPONGE_WIDTH,
            m.values@.len() == 1606 * i,
            forall|k: int| 0 <= k < i ==> #[trigger] m.row(k) == sponge_trace_row(msg@, k),
        decreases target - i,
    {
        let ghost before = m;
        if i < live_rows {
            let bits = state_to_bits(&pre_rounds[i]);
            push_state_row(&mut m.values, &bits, true, i % KECCAK_ROUNDS);
        } else {
            push_state_row(&mut m.values, &final_bits, false, 0);
        }
        proof {
            let row = sponge_trace_row(msg@, i as int);
            assert(row.len() == 1606);
            assert(vals(m.values@) == vals(before.values@) + row);
            lemma_append_row(before, m, row, i as int);
            assert forall|k: int| 0 <= k < i + 1 implies #[trigger] m.row(k) == sponge_trace_row(
                msg@,
                k,
            ) by {
                if k < i {
                    assert(m.row(k) == before.row(k));
                }
            }
        }
        i += 1;
    }
    proof {
        assert(m.rows() == target);
        assert(m.values@.len() % 1606 == 0);
    }
    m
}

/// The public values: message bytes, then digest bytes.
pub open spec fn sponge_publics(msg: Seq<u8>, digest: Seq<u8>) -> Seq<int> {
    byte_vals(msg) + byte_vals(digest)
}

/// The public values of a message and a digest.
pub fn build_public_values(msg: &[u8], digest: &[u8; KECCAK256_OUT]) -> (pv: Vec<Val>)
    ensures
        vals(pv@) == sponge_publics(msg@, digest@),
{
    let mut pv: Vec<Val> = Vec::new();
    push_bytes(&mut pv, msg);
    push_bytes(&mut pv, vstd::array::array_as_slice(digest));
    proof {
        assert(vals(pv@) =~= sponge_publics(msg@, digest@));
    }
    pv
}

/// A proof that a message of `msg_len` bytes hashes to `digest`.
#[derive(Debug, Clone, PartialEq, Eq)]
pub struct Keccak256StarkProof {
    pub msg_len: u32,
    pub digest: [u8; KECCAK256_OUT],
    pub stark: Vec<u8>,
}

/// Why a sponge proof was not made.
#[derive(Debug, Clone, PartialEq, Eq)]
pub enum Keccak256Error {
    /// No system is set up for this message length.
    UnsupportedMsgLen,
    /// The row does not have the aggregation width.
    LdeRowWidth,
    /// The row does not serialize to a supported message length.
    UnsupportedLeafWidth,
    /// The proof system reported an error.
    Backend(String),
}

/// `prover` may be asked to prove any sponge trace.
pub open spec fn sponge_prover_ready<
    F: Fn(&Keccak256SpongeAir, &RowMajorMatrix, &[Val]) -> Result<Vec<u8>, String>,
>(prover: F) -> bool {
    forall|a: &Keccak256SpongeAir, m: &RowMajorMatrix, p: &[Val]|
        call_requires(prover, (a, m, p))
}

/// `reply` is what `prover` answered when given the sponge system, trace and publics of `msg`.
pub open spec fn sponge_prover_reply<
    F: Fn(&Keccak256SpongeAir, &RowMajorMatrix, &[Val]) -> Result<Vec<u8>, String>,
>(prover: F, msg: Seq<u8>, reply: Result<Vec<u8>, String>) -> bool {
    exists|a: &Keccak256SpongeAir, m: &RowMajorMatrix, p: &[Val]|
        {
            &&& #[trigger] call_ensures(prover, (a, m, p), reply)
            &&& a.msg_len == msg.len()
            &&& is_sponge_trace(*m, msg)
            &&& vals(p@) == sponge_publics(msg, keccak256_spec(msg))
        }
}

/// What proving `msg` returns when the proof system answers `reply`.
pub open spec fn sponge_proved(
    msg: Seq<u8>,
    reply: Result<Vec<u8>, String>,
    r: Result<Keccak256StarkProof, Keccak256Error>,
) -> bool {
    match reply {
        Ok(stark) => r matches Ok(p) && p.msg_len == msg.len() && p.digest@ == keccak256_spec(msg)
            && p.stark@ == stark@,
        Err(e) => r matches Err(Keccak256Error::Backend(t)) && t@ == e@,
    }
}

/// The outcome of proving `msg` with `prover`.
pub open spec fn sponge_prove_outcome<
    F: Fn(&Keccak256SpongeAir, &RowMajorMatrix, &[Val]) -> Result<Vec<u8>, String>,
>(prover: F, msg: Seq<u8>, r: Result<Keccak256StarkProof, Keccak256Error>) -> bool {
    if msg_len_supported(msg.len() as int) {
        exists|reply: Result<Vec<u8>, String>|
            #[trigger] sponge_prover_reply(prover, msg, reply) && sponge_proved(msg, reply, r)
    } else {
        r == Err::<Keccak256StarkProof, Keccak256Error>(Keccak256Error::UnsupportedMsgLen)
    }
}

/// Proves the Keccak-256 digest of a message with the given proof system.
pub fn prove_keccak256<
    F: Fn(&Keccak256SpongeAir, &RowMajorMatrix, &[Val]) -> Result<Vec<u8>, String>,
>(msg: &[u8], prover: &F) -> (r: Result<Keccak256StarkProof, Keccak256Error>)
    requires
        sponge_prover_ready(*prover),
    ensures
        sponge_prove_outcome(*prover, msg@, r),
{
    if !supported_msg_len(msg.len()) {
        return Err(Keccak256Error::UnsupportedMsgLen);
    }
    let digest = keccak256(msg);
    let air = Keccak256SpongeAir { msg_len: msg.len() };
    let matrix = build_sponge_matrix(msg);
    let pv = build_public_values(msg, &digest);
    let publics: &[Val] = pv.as_slice();
    let reply = prover(&air, &matrix, publics);
    proof {
        assert(call_ensures(*prover, (&air, &matrix, publics), reply));
        assert(sponge_prover_reply(*prover, msg@, reply));
    }
    match reply {
        Ok(stark) => Ok(Keccak256StarkProof { msg_len: msg.len() as u32, digest, stark }),
        Err(e) => Err(Keccak256Error::Backend(e)),
    }
}

/// `verifier` may be asked about any sponge claim.
pub open spec fn sponge_verifier_ready<V: Fn(&Keccak256SpongeAir, &[Val], &[u8]) -> bool>(
    verifier: V,
) -> bool {
    forall|a: &Keccak256SpongeAir, p: &[Val], b: &[u8]| call_requires(verifier, (a, p, b))
}

/// The outcome of checking `proof` against `msg`: false where the length is wrong or
/// unsupported, else the verifier's verdict on the proof bytes for `msg` and its digest.
pub open spec fn sponge_verify_outcome<V: Fn(&Keccak256SpongeAir, &[Val], &[u8]) -> bool>(
    verifier: V,
    msg: Seq<u8>,
    proof: Keccak256StarkProof,
    r: bool,
) -> bool {
    if msg_len_supported(msg.len() as int) && proof.msg_len == msg.len() {
        exists|a: &Keccak256SpongeAir, p: &[Val], b: &[u8]|
            {
                &&& #[trigger] call_ensures(verifier, (a, p, b), r)
                &&& a.msg_len == msg.len()
                &&& vals(p@) == sponge_publics(msg, proof.digest@)
                &&& b@ == proof.stark@
            }
    } else {
        !r
    }
}

/// Checks a sponge proof with the given verifier.
pub fn verify_keccak256<V: Fn(&Keccak256SpongeAir, &[Val], &[u8]) -> bool>(
    msg: &[u8],
    proof: &Keccak256StarkProof,
    verifier: &V,
) -> (r: bool)
    requires
        sponge_verifier_ready(*verifier),
    ensures
        sponge_verify_outcome(*verifier, msg@, *proof, r),
{
    if !supported_msg_len(msg.len()) {
        return false;
    }
    if msg.len() as u32 != proof.msg_len {
        return false;
    }
    let air = Keccak256SpongeAir { msg_len: msg.len() };
    let pv = build_public_values(msg, &proof.digest);
    verifier(&air, pv.as_slice(), proof.stark.as_slice())
}

/// Proves the compression of two digests.
pub fn prove_compress<
    F: Fn(&Keccak256SpongeAir, &RowMajorMatrix, &[Val]) -> Result<Vec<u8>, String>,
>(left: [u8; 32], right: [u8; 32], prover: &F) -> (r: Result<Keccak256StarkProof, Keccak256Error>)
    requires
        sponge_prover_ready(*prover),
    ensures
        sponge_prove_outcome(*prover, left@ + right@, r),
{
    let msg = join_digests(&left, &right);
    prove_keccak256(vstd::array::array_as_slice(&msg), prover)
}

/// Checks a proof of the compression of two digests.
pub fn verify_compress<V: Fn(&Keccak256SpongeAir, &[Val], &[u8]) -> bool>(
    left: [u8; 32],
    right: [u8; 32],
    proof: &Keccak256StarkProof,
    verifier: &V,
) -> (r: bool)
    requires
        sponge_verifier_ready(*verifier),
    ensures
        sponge_verify_outcome(*verifier, left@ + right@, *proof, r),
{
    let msg = join_digests(&left, &right);
    verify_keccak256(vstd::array::array_as_slice(&msg), proof, verifier)
}

/// Proves the leaf digest of an aggregation-width row.
pub fn prove_lde_leaf<
    F: Fn(&Keccak256SpongeAir, &RowMajorMatrix, &[Val]) -> Result<Vec<u8>, String>,
>(row: &[Val], prover: &F) -> (r: Result<Keccak256StarkProof, Keccak256Error>)
    requires
        sponge_prover_ready(*prover),
    ensures
        row@.len() != AGG_WIDTH ==> r == Err::<Keccak256StarkProof, Keccak256Error>(
            Keccak256Error::LdeRowWidth,
        ),
        row@.len() == AGG_WIDTH ==> sponge_prove_outcome(*prover, row_bytes(vals(row@)), r),
{
    if row.len() != AGG_WIDTH {
        return Err(Keccak256Error::LdeRowWidth);
    }
    let bytes = lde_row_to_bytes(row);
    prove_keccak256(bytes.as_slice(), prover)
}

/// Proves the leaf digest of a row that serializes to a supported length.
pub fn prove_val_leaf<
    F: Fn(&Keccak256SpongeAir, &RowMajorMatrix, &[Val]) -> Result<Vec<u8>, String>,
>(row: &[Val], prover: &F) -> (r: Result<Keccak256StarkProof, Keccak256Error>)
    requires
        sponge_prover_ready(*prover),
    ensures
        !msg_len_supported(4 * row@.len() as int) ==> r == Err::<
            Keccak256StarkProof,
            Keccak256Error,
        >(Keccak256Error::UnsupportedLeafWidth),
        msg_len_supported(4 * row@.len() as int) ==> sponge_prove_outcome(
            *prover,
            row_bytes(vals(row@)),
            r,
        ),
{
    let bytes = val_row_to_bytes(row);
    if !supported_msg_len(bytes.len()) {
        return Err(Keccak256Error::UnsupportedLeafWidth);
    }
    prove_keccak256(bytes.as_slice(), prover)
}

/// Checks a leaf proof of an aggregation-width row.
pub fn verify_lde_leaf<V: Fn(&Keccak256SpongeAir, &[Val], &[u8]) -> bool>(
    row: &[Val],
    proof: &Keccak256StarkProof,
    verifier: &V,
) -> (r: bool)
    requires
        sponge_verifier_ready(*verifier),
    ensures
        row@.len() != AGG_WIDTH ==> !r,
        row@.len() == AGG_WIDTH ==> sponge_verify_outcome(
            *verifier,
            row_bytes(vals(row@)),
            *proof,
            r,
        ),
{
    if row.len() != AGG_WIDTH {
        return false;
    }
    let bytes = lde_row_to_bytes(row);
    verify_keccak256(bytes.as_slice(), proof, verifier)
}

/// Checks a leaf proof of a row of any width.
pub fn verify_val_leaf<V: Fn(&Keccak256SpongeAir, &[Val], &[u8]) -> bool>(
    row: &[Val],
    proof: &Keccak256StarkProof,
    verifier: &V,
) -> (r: bool)
    requires
        sponge_verifier_ready(*verifier),
    ensures
        sponge_verify_outcome(*verifier, row_bytes(vals(row@)), *proof, r),
{
    let bytes = val_row_to_bytes(row);
    verify_keccak256(bytes.as_slice(), proof, verifier)
}

/// Whether two digests are equal.
pub fn same_digest(a: &[u8; 32], b: &[u8; 32]) -> (r: bool)
    ensures
        r == (a@ == b@),
        r == (*a == *b),
{
    let mut i: usize = 0;
    while i < 32
        invariant
            i <= 32,
            a@.len() == 32,
            b@.len() == 32,
            forall|j: int| 0 <= j < i ==> a@[j] == b@[j],
        decreases 32 - i,
    {
        if a[i] != b[i] {
            return false;
        }
        i += 1;
    }
    proof {
        assert(a@ =~= b@);
        assert(*a =~= *b);
    }
    true
}

/// As [`verify_compress`], for a claimed digest.
pub fn verify_compress_digest<V: Fn(&Keccak256SpongeAir, &[Val], &[u8]) -> bool>(
    left: [u8; 32],
    right: [u8; 32],
    expected: &[u8; 32],
    proof: &Keccak256StarkProof,
    verifier: &V,
) -> (r: bool)
    requires
        sponge_verifier_ready(*verifier),
    ensures
        proof.digest@ != expected@ ==> !r,
        proof.digest@ == expected@ ==> sponge_verify_outcome(*verifier, left@ + right@, *proof, r),
{
    if !same_digest(&proof.digest, expected) {
        return false;
    }
    verify_compress(left, right, proof, verifier)
}

/// As [`verify_lde_leaf`], for a claimed digest.
pub fn verify_lde_leaf_digest<V: Fn(&Keccak256SpongeAir, &[Val], &[u8]) -> bool>(
    row: &[Val],
    expected: &[u8; 32],
    proof: &Keccak256StarkProof,
    verifier: &V,
) -> (r: bool)
    requires
        sponge_verifier_ready(*verifier),
    ensures
        (proof.digest@ != expected@ || row@.len() != AGG_WIDTH) ==> !r,
        proof.digest@ == expected@ && row@.len() == AGG_WIDTH ==> sponge_verify_outcome(
            *verifier,
            row_bytes(vals(row@)),
            *proof,
            r,
        ),
{
    if !same_digest(&proof.digest, expected) {
        return false;
    }
    verify_lde_leaf(row, proof, verifier)
}

/// As [`verify_val_leaf`], for a claimed digest.
pub fn verify_val_leaf_digest<V: Fn(&Keccak256SpongeAir, &[Val], &[u8]) -> bool>(
    row: &[Val],
    expected: &[u8; 32],
    proof: &Keccak256StarkProof,
    verifier: &V,
) -> (r: bool)
    requires
        sponge_verifier_ready(*verifier),
    ensures
        proof.digest@ != expected@ ==> !r,
        proof.digest@ == expected@ ==> sponge_verify_outcome(
            *verifier,
            row_bytes(vals(row@)),
            *proof,
            r,
        ),
{
    if !same_digest(&proof.digest, expected) {
        return false;
    }
    verify_val_leaf(row, proof, verifier)
}

} // verus!
