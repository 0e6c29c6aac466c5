//! Constraint families shared by the Keccak sponge systems.
//!
//! Each function emits one family; the spec function of the same subject lists its values.
use vstd::prelude::*;

use crate::bits::nat_bit;
use crate::constraint::{evals, expr_xor, fxor, ConstraintSink, Expr};
use crate::field::{fadd, fmul, fsub};
use crate::keccak_f_air::{
    constrain_cells, keccak_round_bits_expr_with_rc, round_cell, round_cells, round_constraints,
};
use crate::keccak_f_native::{lane_bit, KECCAK_RATE, KECCAK_ROUNDS, RC};

verus! {

/// `2^k` in the field.
pub open spec fn fpow2(k: nat) -> int
    decreases k,
{
    if k == 0 {
        1
    } else {
        fmul(fpow2((k - 1) as nat), 2)
    }
}

/// The number written by the first `n` bits, least significant first.
pub open spec fn bits_value_upto(bits: Seq<int>, n: nat) -> int
    decreases n,
{
    if n == 0 {
        0
    } else {
        fadd(
            bits_value_upto(bits, (n - 1) as nat),
            fmul(bits[n - 1], fpow2((n - 1) as nat)),
        )
    }
}

/// The number written by a list of bits, least significant first.
pub open spec fn bits_value(bits: Seq<int>) -> int {
    bits_value_upto(bits, bits.len())
}

/// The selector that is one when the first `n` bits spell `target` and zero on other bits.
pub open spec fn eq_bits_upto(bits: Seq<int>, target: int, n: nat) -> int
    decreases n,
{
    if n == 0 {
        1
    } else {
        let b = bits[n - 1];
        fmul(
            eq_bits_upto(bits, target, (n - 1) as nat),
            if nat_bit(target, (n - 1) as nat) {
                b
            } else {
                fsub(1, b)
            },
        )
    }
}

/// The selector for `target` over all the bits.
pub open spec fn eq_bits(bits: Seq<int>, target: int) -> int {
    eq_bits_upto(bits, target, bits.len())
}

/// The sum of the selectors for `0 .. n`.
pub open spec fn eq_bits_sum(bits: Seq<int>, n: nat) -> int
    decreases n,
{
    if n == 0 {
        0
    } else {
        fadd(eq_bits_sum(bits, (n - 1) as nat), eq_bits(bits, n - 1))
    }
}

/// Round-constant bit `b`, selected among the first `n` rounds.
pub open spec fn rc_select_upto(bits: Seq<int>, b: int, n: nat) -> int
    decreases n,
{
    if n == 0 {
        0
    } else {
        let prev = rc_select_upto(bits, b, (n - 1) as nat);
        if lane_bit(RC@[n - 1], b) {
            fadd(prev, eq_bits(bits, n - 1))
        } else {
            prev
        }
    }
}

/// The round-constant bits selected by the round counter.
pub open spec fn rc_select(bits: Seq<int>) -> Seq<int> {
    Seq::new(64, |b: int| rc_select_upto(bits, b, 24))
}

/// The state byte `i` packed from its eight bits.
pub open spec fn packed_byte(state: Seq<int>, i: int) -> int {
    bits_value(state.subrange(8 * i, 8 * i + 8))
}

/// What byte `i` of the rate holds when a message of `len` bytes at `pv[base ..]` starts a
/// sponge.
pub open spec fn first_block_byte(pv: Seq<int>, base: int, len: int, i: int) -> int {
    if len <= 136 {
        if i == len && i == 135 {
            0x81
        } else if i < len {
            pv[base + i]
        } else if i == len {
            1
        } else if i == 135 {
            0x80
        } else {
            0
        }
    } else {
        pv[base + i]
    }
}

/// What is absorbed into byte `i` of the rate before the second permutation.
pub open spec fn second_block_byte(pv: Seq<int>, base: int, len: int, i: int) -> int {
    let rest = len - 136;
    if i == rest && i == 135 {
        0x81
    } else if i < rest {
        pv[base + 136 + i]
    } else if i == rest {
        1
    } else if i == 135 {
        0x80
    } else {
        0
    }
}

/// The number written by bit expressions, least significant first.
pub fn bits_value_expr<E: Expr>(bits: &[E]) -> (r: E)
    ensures
        r.val() == bits_value(evals(bits@)),
{
    let two = E::lit(2);
    let mut acc = E::lit(0);
    let mut pow = E::lit(1);
    let mut i: usize = 0;
    while i < bits.len()
        invariant
            i <= bits.len(),
            two.val() == 2,
            acc.val() == bits_value_upto(evals(bits@), i as nat),
            pow.val() == fpow2(i as nat),
        decreases bits.len() - i,
    {
        acc = acc.plus(&bits[i].times(&pow));
        pow = pow.times(&two);
        i += 1;
    }
    acc
}

/// The selector expression for `target`.
pub fn eq_bits_const<E: Expr>(bits: &[E], target: u32) -> (r: E)
    ensures
        r.val() == eq_bits(evals(bits@), target as int),
{
    let one = E::lit(1);
    let mut sel = E::lit(1);
    let mut t: u32 = target;
    let mut k: usize = 0;
    while k < bits.len()
        invariant
            k <= bits.len(),
            one.val() == 1,
            sel.val() == eq_bits_upto(evals(bits@), target as int, k as nat),
            forall|j: nat| #[trigger] nat_bit(t as int, j) == nat_bit(target as int, k as nat + j),
        decreases bits.len() - k,
    {
        proof {
            assert(nat_bit(t as int, 0) == nat_bit(target as int, k as nat + 0));
        }
        if t % 2 == 1 {
            sel = sel.times(&bits[k]);
        } else {
            sel = sel.times(&one.minus(&bits[k]));
        }
        let ghost t0: u32 = t;
        t = t / 2;
        proof {
            assert forall|j: nat| #[trigger]
                nat_bit(t as int, j) == nat_bit(target as int, (k + 1) as nat + j) by {
                assert(nat_bit(t0 as int, j + 1) == nat_bit(target as int, k as nat + (j + 1)));
            }
        }
        k += 1;
    }
    sel
}

/// The sum of the selectors of all rounds.
pub fn round_sum_expr<E: Expr>(bits: &[E]) -> (r: E)
    ensures
        r.val() == eq_bits_sum(evals(bits@), 24),
{
    let mut acc = E::lit(0);
    let mut r: u32 = 0;
    while r < 24
        invariant
            r <= 24,
            acc.val() == eq_bits_sum(evals(bits@), r as nat),
        decreases 24 - r,
    {
        acc = acc.plus(&eq_bits_const(bits, r));
        r += 1;
    }
    acc
}

/// The round-constant bit expressions selected by the round counter.
pub fn rc_bits_from_round<E: Expr>(bits: &[E]) -> (out: Vec<E>)
    ensures
        out@.len() == 64,
        evals(out@) == rc_select(evals(bits@)),
{
    let rc = RC;
    let mut sels: Vec<E> = Vec::with_capacity(24);
    let mut r: u32 = 0;
    while r < 24
        invariant
            r <= 24,
            sels@.len() == r,
            forall|j: int| 0 <= j < r ==> #[trigger] sels@[j].val() == eq_bits(evals(bits@), j),
        decreases 24 - r,
    {
        sels.push(eq_bits_const(bits, r));
        r += 1;
    }
    let mut out: Vec<E> = Vec::with_capacity(64);
    let mut b: u64 = 0;
    while b < 64
        invariant
            b <= 64,
            rc@ == RC@,
            sels@.len() == 24,
            out@.len() == b,
            forall|j: int| 0 <= j < 24 ==> #[trigger] sels@[j].val() == eq_bits(evals(bits@), j),
            forall|j: int|
                0 <= j < b ==> #[trigger] out@[j].val() == rc_select_upto(evals(bits@), j, 24),
        decreases 64 - b,
    {
        let mut acc = E::lit(0);
        let mut r: usize = 0;
        while r < KECCAK_ROUNDS
            invariant
                r <= KECCAK_ROUNDS,
                b < 64,
                rc@ == RC@,
                sels@.len() == 24,
                acc.val() == rc_select_upto(evals(bits@), b as int, r as nat),
                forall|j: int|
                    0 <= j < 24 ==> #[trigger] sels@[j].val() == eq_bits(evals(bits@), j),
            decreases KECCAK_ROUNDS - r,
        {
            if (rc[r] >> b) & 1 == 1 {
                acc = acc.plus(&sels[r]);
            }
            r += 1;
        }
        out.push(acc);
        b += 1;
    }
    proof {
        assert(evals(out@) =~= rc_select(evals(bits@)));
    }
    out
}

/// A state byte packed from its bit expressions.
pub fn pack_byte_from_state_bits<E: Expr>(bits: &[E], byte_index: usize) -> (r: E)
    requires
        8 * byte_index + 8 <= bits@.len(),
    ensures
        r.val() == packed_byte(evals(bits@), byte_index as int),
{
    let _n: usize = bits.len();
    let s = vstd::slice::slice_subrange(bits, 8 * byte_index, 8 * byte_index + 8);
    proof {
        assert(evals(s@) =~= evals(bits@).subrange(8 * byte_index as int, 8 * byte_index + 8));
    }
    bits_value_expr(s)
}

/// Rate byte `i` of the first block of a message of `len` bytes at `pv[base ..]`.
pub fn first_block_rate_byte<E: Expr>(pv: &[E], base: usize, len: usize, i: usize) -> (r: E)
    requires
        base + len <= pv@.len(),
        i < 136,
    ensures
        r.val() == first_block_byte(evals(pv@), base as int, len as int, i as int),
{
    let _n: usize = pv.len();
    if len <= KECCAK_RATE {
        if i == len && i == KECCAK_RATE - 1 {
            E::lit(0x81)
        } else if i < len {
            pv[base + i].dup()
        } else if i == len {
            E::lit(1)
        } else if i == KECCAK_RATE - 1 {
            E::lit(0x80)
        } else {
            E::lit(0)
        }
    } else {
        pv[base + i].dup()
    }
}

/// Rate byte `i` absorbed before the second permutation of a two-block message.
pub fn second_block_rate_byte<E: Expr>(pv: &[E], base: usize, len: usize, i: usize) -> (r: E)
    requires
        base + len <= pv@.len(),
        136 < len <= 272,
        i < 136,
    ensures
        r.val() == second_block_byte(evals(pv@), base as int, len as int, i as int),
{
    let _n: usize = pv.len();
    let rest: usize = len - KECCAK_RATE;
    if i == rest && i == KECCAK_RATE - 1 {
        E::lit(0x81)
    } else if i < rest {
        pv[base + KECCAK_RATE + i].dup()
    } else if i == rest {
        E::lit(1)
    } else if i == KECCAK_RATE - 1 {
        E::lit(0x80)
    } else {
        E::lit(0)
    }
}

/// A live row carries a round number below 24; an idle row carries zero.
pub open spec fn round_counter_constraints(live: int, bits: Seq<int>) -> Seq<int> {
    seq![fmul(live, fsub(eq_bits_sum(bits, 24), 1))] + Seq::new(
        bits.len(),
        |k: int| fmul(fsub(1, live), bits[k]),
    )
}

pub fn constrain_round_counter<S: ConstraintSink>(sink: &mut S, live: &S::E, bits: &[S::E])
    ensures
        final(sink).emitted() == old(sink).emitted() + round_counter_constraints(
            live.val(),
            evals(bits@),
        ),
{
    let ghost base = sink.emitted();
    let ghost want = round_counter_constraints(live.val(), evals(bits@));
    let one = <S::E as Expr>::lit(1);
    sink.assert_zero(live.times(&round_sum_expr(bits).minus(&one)));
    proof {
        assert(sink.emitted() =~= base + want.take(1));
    }
    let idle = one.minus(live);
    let mut k: usize = 0;
    while k < bits.len()
        invariant
            k <= bits.len(),
            idle.val() == fsub(1, live.val()),
            want == round_counter_constraints(live.val(), evals(bits@)),
            sink.emitted() == base + want.take(k + 1),
        decreases bits.len() - k,
    {
        sink.assert_zero(idle.times(&bits[k]));
        proof {
            assert(sink.emitted() =~= base + want.take(k + 2));
        }
        k += 1;
    }
    proof {
        assert(want.take(k + 1) =~= want);
    }
}

/// The state advances by one round where `cont` or `to_final` is on; the round counter
/// advances with it and stands at 23 where the permutation ends.
#[verifier::opaque]
pub open spec fn step_constraints(
    curr: Seq<int>,
    next: Seq<int>,
    rc: Seq<int>,
    cont_en: int,
    final_en: int,
    round_c: int,
    round_n: int,
) -> Seq<int> {
    round_constraints(curr, next, rc, cont_en) + seq![
        fmul(cont_en, fsub(fsub(round_n, round_c), 1)),
    ] + round_constraints(curr, next, rc, final_en) + seq![fmul(final_en, fsub(round_c, 23))]
}

/// Emits the step constraints and hands back the cells that the round yields.
pub fn constrain_step<S: ConstraintSink>(
    sink: &mut S,
    curr: &[S::E],
    next: &[S::E],
    rc: &[S::E],
    cont_en: &S::E,
    final_en: &S::E,
    round_c: &S::E,
    round_n: &S::E,
) -> (expected: Vec<S::E>)
    requires
        curr@.len() == 1600,
        next@.len() == 1600,
        rc@.len() == 64,
    ensures
        final(sink).emitted() == old(sink).emitted() + step_constraints(
            evals(curr@),
            evals(next@),
            evals(rc@),
            cont_en.val(),
            final_en.val(),
            round_c.val(),
            round_n.val(),
        ),
        expected@.len() == 1600,
        evals(expected@) == round_cells(evals(curr@), evals(rc@)),
{
    let ghost base = sink.emitted();
    let one = <S::E as Expr>::lit(1);
    let twenty_three = <S::E as Expr>::lit(23);
    let expected = keccak_round_bits_expr_with_rc(curr, rc);
    proof {
        assert(evals(expected@).len() == 1600);
        assert forall|i: int| 0 <= i < 1600 implies #[trigger] expected@[i].val() == round_cell(
            evals(curr@),
            evals(rc@),
            i,
        ) by {
            assert(evals(expected@)[i] == expected@[i].val());
        }
    }
    constrain_cells(sink, next, expected.as_slice(), cont_en);
    sink.assert_zero(cont_en.times(&round_n.minus(round_c).minus(&one)));
    constrain_cells(sink, next, expected.as_slice(), final_en);
    sink.assert_zero(final_en.times(&round_c.minus(&twenty_three)));
    proof {
        reveal(step_constraints);
        assert(sink.emitted() =~= base + step_constraints(
            evals(curr@),
            evals(next@),
            evals(rc@),
            cont_en.val(),
            final_en.val(),
            round_c.val(),
            round_n.val(),
        ));
    }
    expected
}

/// Where `en` is on, the listed cells keep their values.
pub open spec fn hold_constraints(curr: Seq<int>, next: Seq<int>, en: int) -> Seq<int> {
    Seq::new(curr.len(), |i: int| fmul(en, fsub(next[i], curr[i])))
}

pub fn constrain_hold<S: ConstraintSink>(sink: &mut S, curr: &[S::E], next: &[S::E], en: &S::E)
    requires
        curr@.len() == next@.len(),
    ensures
        final(sink).emitted() == old(sink).emitted() + hold_constraints(
            evals(curr@),
            evals(next@),
            en.val(),
        ),
{
    let ghost base = sink.emitted();
    let ghost want = hold_constraints(evals(curr@), evals(next@), en.val());
    let mut i: usize = 0;
    while i < curr.len()
        invariant
            i <= curr.len(),
            curr@.len() == next@.len(),
            want == hold_constraints(evals(curr@), evals(next@), en.val()),
            sink.emitted() == base + want.take(i as int),
        decreases curr.len() - i,
    {
        sink.assert_zero(en.times(&next[i].minus(&curr[i])));
        proof {
            assert(sink.emitted() =~= base + want.take(i + 1));
        }
        i += 1;
    }
    proof {
        assert(want.take(i as int) =~= want);
    }
}

/// Where `en` is on, each listed cell is zero.
pub open spec fn zero_constraints(cells: Seq<int>, en: int) -> Seq<int> {
    Seq::new(cells.len(), |i: int| fmul(en, cells[i]))
}

pub fn constrain_zero<S: ConstraintSink>(sink: &mut S, cells: &[S::E], en: &S::E)
    ensures
        final(sink).emitted() == old(sink).emitted() + zero_constraints(evals(cells@), en.val()),
{
    let ghost base = sink.emitted();
    let ghost want = zero_constraints(evals(cells@), en.val());
    let mut i: usize = 0;
    while i < cells.len()
        invariant
            i <= cells.len(),
            want == zero_constraints(evals(cells@), en.val()),
            sink.emitted() == base + want.take(i as int),
        decreases cells.len() - i,
    {
        sink.assert_zero(en.times(&cells[i]));
        proof {
            assert(sink.emitted() =~= base + want.take(i + 1));
        }
        i += 1;
    }
    proof {
        assert(want.take(i as int) =~= want);
    }
}

/// Where `en` is on, the state bytes from `from` on are the listed ones.
pub open spec fn bytes_constraints(state: Seq<int>, from: int, want: Seq<int>, en: int) -> Seq<
    int,
> {
    Seq::new(want.len(), |i: int| fmul(en, fsub(packed_byte(state, from + i), want[i])))
}

pub fn constrain_bytes<S: ConstraintSink>(
    sink: &mut S,
    state: &[S::E],
    from: usize,
    wanted: &[S::E],
    en: &S::E,
)
    requires
        8 * (from + wanted@.len()) <= state@.len(),
    ensures
        final(sink).emitted() == old(sink).emitted() + bytes_constraints(
            evals(state@),
            from as int,
            evals(wanted@),
            en.val(),
        ),
{
    let ghost base = sink.emitted();
    let ghost want = bytes_constraints(evals(state@), from as int, evals(wanted@), en.val());
    let n: usize = state.len();
    let mut i: usize = 0;
    while i < wanted.len()
        invariant
            i <= wanted.len(),
            8 * (from + wanted@.len()) <= state@.len(),
            n == state@.len(),
            want == bytes_constraints(evals(state@), from as int, evals(wanted@), en.val()),
            sink.emitted() == base + want.take(i as int),
        decreases wanted.len() - i,
    {
        let packed = pack_byte_from_state_bits(state, from + i);
        sink.assert_zero(en.times(&packed.minus(&wanted[i])));
        proof {
            assert(sink.emitted() =~= base + want.take(i + 1));
        }
        i += 1;
    }
    proof {
        assert(want.take(i as int) =~= want);
    }
}

/// Where `en` is on, the row starts a sponge: the rate holds the listed bytes, the capacity
/// is zero, the row is live and at round zero.
#[verifier::opaque]
pub open spec fn start_constraints(
    state: Seq<int>,
    block: Seq<int>,
    live: int,
    round_c: int,
    en: int,
) -> Seq<int> {
    bytes_constraints(state, 0, block, en) + zero_constraints(state.subrange(1088, 1600), en) + seq![
        fmul(en, fsub(live, 1)),
        fmul(en, round_c),
    ]
}

pub fn constrain_start<S: ConstraintSink>(
    sink: &mut S,
    state: &[S::E],
    block: &[S::E],
    live: &S::E,
    round_c: &S::E,
    en: &S::E,
)
    requires
        state@.len() == 1600,
        block@.len() <= 136,
    ensures
        final(sink).emitted() == old(sink).emitted() + start_constraints(
            evals(state@),
            evals(block@),
            live.val(),
            round_c.val(),
            en.val(),
        ),
{
    let ghost base = sink.emitted();
    let one = <S::E as Expr>::lit(1);
    constrain_bytes(sink, state, 0, block, en);
    let cap = vstd::slice::slice_subrange(state, 1088, 1600);
    proof {
        assert(evals(cap@) =~= evals(state@).subrange(1088, 1600));
    }
    constrain_zero(sink, cap, en);
    sink.assert_zero(en.times(&live.minus(&one)));
    sink.assert_zero(en.times(round_c));
    proof {
        reveal(start_constraints);
        assert(sink.emitted() =~= base + start_constraints(
            evals(state@),
            evals(block@),
            live.val(),
            round_c.val(),
            en.val(),
        ));
    }
}

/// The bytes of the first block of a message.
pub open spec fn first_block(pv: Seq<int>, base: int, len: int) -> Seq<int> {
    Seq::new(136, |i: int| first_block_byte(pv, base, len, i))
}

pub fn first_block_exprs<E: Expr>(pv: &[E], base: usize, len: usize) -> (out: Vec<E>)
    requires
        base + len <= pv@.len(),
    ensures
        out@.len() == 136,
        evals(out@) == first_block(evals(pv@), base as int, len as int),
{
    let mut out: Vec<E> = Vec::with_capacity(136);
    let mut i: usize = 0;
    while i < 136
        invariant
            i <= 136,
            base + len <= pv@.len(),
            out@.len() == i,
            forall|j: int|
                0 <= j < i ==> #[trigger] out@[j].val() == first_block_byte(
                    evals(pv@),
                    base as int,
                    len as int,
                    j,
                ),
        decreases 136 - i,
    {
        out.push(first_block_rate_byte(pv, base, len, i));
        i += 1;
    }
    proof {
        assert(evals(out@) =~= first_block(evals(pv@), base as int, len as int));
    }
    out
}

/// The exclusive or of two state bytes, packed.
pub open spec fn xor_byte(a: Seq<int>, b: Seq<int>, i: int) -> int {
    bits_value(Seq::new(8, |k: int| fxor(a[8 * i + k], b[8 * i + k])))
}

/// Where `en` is on, the next state is the round applied to this one with the second block
/// absorbed, at round zero.
#[verifier::opaque]
pub open spec fn second_block_constraints(
    curr: Seq<int>,
    next: Seq<int>,
    rc: Seq<int>,
    pv: Seq<int>,
    base: int,
    len: int,
    round_n: int,
    en: int,
) -> Seq<int> {
    let expected = round_cells(curr, rc);
    Seq::new(
        136,
        |i: int|
            fmul(en, fsub(xor_byte(next, expected, i), second_block_byte(pv, base, len, i))),
    ) + Seq::new(512, |i: int| fmul(en, fsub(next[1088 + i], expected[1088 + i]))) + seq![
        fmul(en, round_n),
    ]
}

/// Emits the second-block constraints of a row pair whose round yields `expected`.
pub fn constrain_second_block<S: ConstraintSink>(
    sink: &mut S,
    Ghost(curr): Ghost<Seq<int>>,
    Ghost(rc): Ghost<Seq<int>>,
    expected: &[S::E],
    next: &[S::E],
    pv: &[S::E],
    base: usize,
    len: usize,
    round_n: &S::E,
    en: &S::E,
)
    requires
        expected@.len() == 1600,
        evals(expected@) == round_cells(curr, rc),
        next@.len() == 1600,
        base + len <= pv@.len(),
        136 < len <= 272,
    ensures
        final(sink).emitted() == old(sink).emitted() + second_block_constraints(
            curr,
            evals(next@),
            rc,
            evals(pv@),
            base as int,
            len as int,
            round_n.val(),
            en.val(),
        ),
{
    let ghost nv = evals(next@);
    let ghost ev = evals(expected@);
    let ghost pvv = evals(pv@);
    let ghost e0 = sink.emitted();
    let ghost want1 = Seq::new(
        136,
        |i: int|
            fmul(
                en.val(),
                fsub(xor_byte(nv, ev, i), second_block_byte(pvv, base as int, len as int, i)),
            ),
    );
    proof {
        assert(ev == round_cells(curr, rc));
        assert(expected@.len() == ev.len());
    }
    let mut i: usize = 0;
    while i < 136
        invariant
            i <= 136,
            next@.len() == 1600,
            expected@.len() == 1600,
            nv == evals(next@),
            ev == evals(expected@),
            pvv == evals(pv@),
            base + len <= pv@.len(),
            136 < len <= 272,
            want1 == Seq::new(
                136,
                |i: int|
                    fmul(
                        en.val(),
                        fsub(xor_byte(nv, ev, i), second_block_byte(pvv, base as int, len as int, i)),
                    ),
            ),
            sink.emitted() == e0 + want1.take(i as int),
        decreases 136 - i,
    {
        let mut xs: Vec<S::E> = Vec::with_capacity(8);
        let mut k: usize = 0;
        while k < 8
            invariant
                k <= 8,
                i < 136,
                next@.len() == 1600,
                expected@.len() == 1600,
                nv == evals(next@),
                ev == evals(expected@),
                xs@.len() == k,
                forall|j: int|
                    0 <= j < k ==> #[trigger] xs@[j].val() == fxor(nv[8 * i + j], ev[8 * i + j]),
            decreases 8 - k,
        {
            xs.push(expr_xor(&next[8 * i + k], &expected[8 * i + k]));
            k += 1;
        }
        let packed = bits_value_expr(xs.as_slice());
        proof {
            assert(evals(xs@) =~= Seq::new(8, |k: int| fxor(nv[8 * i + k], ev[8 * i + k])));
        }
        let wb = second_block_rate_byte(pv, base, len, i);
        sink.assert_zero(en.times(&packed.minus(&wb)));
        proof {
            assert(sink.emitted() =~= e0 + want1.take(i + 1));
        }
        i += 1;
    }
    proof {
        assert(want1.take(136) =~= want1);
    }
    let ncap = vstd::slice::slice_subrange(next, 1088, 1600);
    let ecap = vstd::slice::slice_subrange(expected, 1088, 1600);
    constrain_hold(sink, ecap, ncap, en);
    sink.assert_zero(en.times(round_n));
    proof {
        assert(hold_constraints(evals(ecap@), evals(ncap@), en.val()) =~= Seq::new(
            512,
            |i: int| fmul(en.val(), fsub(nv[1088 + i], ev[1088 + i])),
        ));
        reveal(second_block_constraints);
        assert(sink.emitted() =~= e0 + second_block_constraints(
            curr,
            nv,
            rc,
            pvv,
            base as int,
            len as int,
            round_n.val(),
            en.val(),
        ));
    }
}

} // verus!
