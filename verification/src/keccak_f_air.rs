//! Bit-level constraints for one Keccak-f\[1600\] round.
//!
//! Columns `0..1600` hold the state bits (`64 * lane + bit`, bit 0 least significant) and
//! column 1600 holds the `live` flag.
use vstd::prelude::*;

use crate::constraint::{
    all_zero, assert_bits, bit_constraints, evals, expr_xor, fmul3, fxor, lemma_all_zero_concat,
    ConstraintSink, Expr, Window, WindowVals,
};
use crate::field::{fbool, fmul, fsub};
use crate::keccak_f_native::{
    bits_to_state, chi, keccak_round, lane_bit, lemma_state_bits_injective, pi_source, plane_step,
    rho_pi, rotl, round, state_bits, state_to_bits, theta, theta_c, theta_d, KECCAK_STATE_BITS, RC,
    RHO,
};

verus! {

/// Trace width: 1600 state bits and the `live` flag.
pub const KECCAK_F_WIDTH: usize = 1601;

/// Column of the `live` flag.
pub const LIVE_COL: usize = 1600;

/// Column of state bit `i`.
pub fn bit_col(i: usize) -> (r: usize)
    ensures
        r == i,
{
    i
}

/// One Keccak-f round on a state given as bits.
pub fn apply_round_bits(curr: &[bool; KECCAK_STATE_BITS], rc: u64) -> (out: [bool;
    KECCAK_STATE_BITS])
    ensures
        forall|s: Seq<u64>|
            s.len() == 25 && #[trigger] state_bits(s) == curr@ ==> out@ == state_bits(round(s, rc)),
        exists|s: Seq<u64>| s.len() == 25 && #[trigger] state_bits(s) == curr@,
{
    let mut state = bits_to_state(curr);
    let ghost s0 = state@;
    keccak_round(&mut state, rc);
    let out = state_to_bits(&state);
    proof {
        assert forall|s: Seq<u64>| s.len() == 25 && #[trigger] state_bits(s) == curr@ implies out@
            == state_bits(round(s, rc)) by {
            lemma_state_bits_injective(s, s0);
        }
        assert(state_bits(s0) == curr@);
    }
    out
}

/// Parity of column `x` at bit `b`, over bit values.
#[verifier::opaque]
pub open spec fn col_parity(a: Seq<int>, x: int, b: int) -> int {
    fxor(
        fxor(
            fxor(fxor(fxor(0, a[x * 64 + b]), a[(5 + x) * 64 + b]), a[(10 + x) * 64 + b]),
            a[(15 + x) * 64 + b],
        ),
        a[(20 + x) * 64 + b],
    )
}

/// What theta adds to every cell of column `x` at bit `b`.
pub open spec fn column_mask(a: Seq<int>, x: int, b: int) -> int {
    fxor(col_parity(a, (x + 4) % 5, b), col_parity(a, (x + 1) % 5, (b + 63) % 64))
}

/// Value of state cell `i` after the column-mixing step.
#[verifier::opaque]
pub open spec fn theta_cell(a: Seq<int>, i: int) -> int {
    let x = (i / 64) % 5;
    let b = i % 64;
    fxor(a[i], column_mask(a, x, b))
}

/// The cell that the rotation and lane permutation move to cell `i`.
pub open spec fn rho_pi_source(i: int) -> int {
    let src = pi_source(i / 64);
    src * 64 + (i % 64 + 64 - RHO@[src]) % 64
}

/// Value of state cell `i` after rotation and lane permutation.
#[verifier::opaque]
pub open spec fn rho_pi_cell(a: Seq<int>, i: int) -> int {
    theta_cell(a, rho_pi_source(i))
}

/// The cell `k` lanes after cell `i` in its plane, at the same bit.
pub open spec fn plane_cell(i: int, k: int) -> int {
    plane_step(i / 64, k) * 64 + i % 64
}

/// Value of state cell `i` after the nonlinear step.
#[verifier::opaque]
pub open spec fn chi_cell(a: Seq<int>, i: int) -> int {
    fxor(
        rho_pi_cell(a, i),
        fmul(fsub(1, rho_pi_cell(a, plane_cell(i, 1))), rho_pi_cell(a, plane_cell(i, 2))),
    )
}

/// Value of state cell `i` after a whole round with round-constant bits `rc`.
#[verifier::opaque]
pub open spec fn round_cell(a: Seq<int>, rc: Seq<int>, i: int) -> int {
    if i < 64 {
        fxor(chi_cell(a, i), rc[i])
    } else {
        chi_cell(a, i)
    }
}

/// All state cells after a round.
pub open spec fn round_cells(a: Seq<int>, rc: Seq<int>) -> Seq<int> {
    Seq::new(1600, |i: int| round_cell(a, rc, i))
}

/// The bit values of a round constant.
pub open spec fn rc_vals(rc: u64) -> Seq<int> {
    Seq::new(64, |b: int| fbool(lane_bit(rc, b)))
}

/// The constraints that tie `next` to one round applied to `curr`, scaled by `enable`.
pub open spec fn round_constraints(
    curr: Seq<int>,
    next: Seq<int>,
    rc: Seq<int>,
    enable: int,
) -> Seq<int> {
    Seq::new(1600, |i: int| fmul(enable, fsub(next[i], round_cell(curr, rc, i))))
}

proof fn lemma_rho_bound(l: int)
    requires
        0 <= l < 25,
    ensures
        0 <= RHO@[l] < 64,
{
}

/// The expected next-state bit expressions for one round with symbolic round-constant bits.
pub fn keccak_round_bits_expr_with_rc<E: Expr>(curr_bits: &[E], rc_bits: &[E]) -> (out: Vec<E>)
    requires
        curr_bits@.len() == 1600,
        rc_bits@.len() == 64,
    ensures
        evals(out@) == round_cells(evals(curr_bits@), evals(rc_bits@)),
{
    let ghost a = evals(curr_bits@);
    let ghost rcv = evals(rc_bits@);
    let mut c: Vec<E> = Vec::with_capacity(320);
    let mut i: usize = 0;
    while i < 320
        invariant
            i <= 320,
            c@.len() == i,
            curr_bits@.len() == 1600,
            a == evals(curr_bits@),
            forall|j: int| 0 <= j < i ==> #[trigger] c@[j].val() == col_parity(a, j / 64, j % 64),
        decreases 320 - i,
    {
        let x: usize = i / 64;
        let b: usize = i % 64;
        let zero = E::lit(0);
        proof {
            reveal(col_parity);
        }
        let p0 = expr_xor(&zero, &curr_bits[x * 64 + b]);
        let p1 = expr_xor(&p0, &curr_bits[(5 + x) * 64 + b]);
        let p2 = expr_xor(&p1, &curr_bits[(10 + x) * 64 + b]);
        let p3 = expr_xor(&p2, &curr_bits[(15 + x) * 64 + b]);
        let p4 = expr_xor(&p3, &curr_bits[(20 + x) * 64 + b]);
        c.push(p4);
        i += 1;
    }
    let mut d: Vec<E> = Vec::with_capacity(320);
    i = 0;
    while i < 320
        invariant
            i <= 320,
            c@.len() == 320,
            d@.len() == i,
            forall|j: int| 0 <= j < 320 ==> #[trigger] c@[j].val() == col_parity(a, j / 64, j % 64),
            forall|j: int| 0 <= j < i ==> #[trigger] d@[j].val() == column_mask(a, j / 64, j % 64),
        decreases 320 - i,
    {
        let x: usize = i / 64;
        let b: usize = i % 64;
        let l: usize = ((x + 4) % 5) * 64 + b;
        let r: usize = ((x + 1) % 5) * 64 + (b + 63) % 64;
        proof {
            assert(l / 64 == (x + 4) % 5 && l % 64 == b);
            assert(r / 64 == (x + 1) % 5 && r % 64 == (b + 63) % 64);
        }
        d.push(expr_xor(&c[l], &c[r]));
        i += 1;
    }
    let mut th: Vec<E> = Vec::with_capacity(1600);
    i = 0;
    while i < 1600
        invariant
            i <= 1600,
            d@.len() == 320,
            th@.len() == i,
            curr_bits@.len() == 1600,
            a == evals(curr_bits@),
            forall|j: int| 0 <= j < 320 ==> #[trigger] d@[j].val() == column_mask(a, j / 64, j % 64),
            forall|j: int| 0 <= j < i ==> #[trigger] th@[j].val() == theta_cell(a, j),
        decreases 1600 - i,
    {
        let x: usize = (i / 64) % 5;
        let b: usize = i % 64;
        let at: usize = x * 64 + b;
        proof {
            assert(at / 64 == x && at % 64 == b);
            reveal(theta_cell);
        }
        th.push(expr_xor(&curr_bits[i], &d[at]));
        i += 1;
    }
    let rho = RHO;
    let mut rp: Vec<E> = Vec::with_capacity(1600);
    i = 0;
    while i < 1600
        invariant
            i <= 1600,
            th@.len() == 1600,
            rp@.len() == i,
            rho@ == RHO@,
            forall|j: int| 0 <= j < 1600 ==> #[trigger] th@[j].val() == theta_cell(a, j),
            forall|j: int| 0 <= j < i ==> #[trigger] rp@[j].val() == rho_pi_cell(a, j),
        decreases 1600 - i,
    {
        let lane: usize = i / 64;
        let src: usize = (lane % 5 + 3 * (lane / 5)) % 5 + 5 * (lane % 5);
        proof {
            lemma_rho_bound(src as int);
            reveal(rho_pi_cell);
        }
        let rot: usize = rho[src] as usize;
        let from: usize = src * 64 + (i % 64 + 64 - rot) % 64;
        rp.push(th[from].dup());
        i += 1;
    }
    let one = E::lit(1);
    let mut out: Vec<E> = Vec::with_capacity(1600);
    i = 0;
    while i < 1600
        invariant
            i <= 1600,
            rp@.len() == 1600,
            out@.len() == i,
            one.val() == 1,
            rc_bits@.len() == 64,
            rcv == evals(rc_bits@),
            forall|j: int| 0 <= j < 1600 ==> #[trigger] rp@[j].val() == rho_pi_cell(a, j),
            forall|j: int| 0 <= j < i ==> #[trigger] out@[j].val() == round_cell(a, rcv, j),
        decreases 1600 - i,
    {
        let lane: usize = i / 64;
        let base: usize = 5 * (lane / 5);
        let i1: usize = (base + (lane % 5 + 1) % 5) * 64 + i % 64;
        let i2: usize = (base + (lane % 5 + 2) % 5) * 64 + i % 64;
        proof {
            reveal(chi_cell);
            reveal(round_cell);
        }
        let and_term = one.minus(&rp[i1]).times(&rp[i2]);
        let ch = expr_xor(&rp[i], &and_term);
        if i < 64 {
            out.push(expr_xor(&ch, &rc_bits[i]));
        } else {
            out.push(ch);
        }
        i += 1;
    }
    proof {
        assert(evals(out@) =~= round_cells(a, rcv));
    }
    out
}

/// The bits of a round constant as literal expressions.
pub fn rc_literals<E: Expr>(rc: u64) -> (out: Vec<E>)
    ensures
        evals(out@) == rc_vals(rc),
        out@.len() == 64,
{
    let mut out: Vec<E> = Vec::with_capacity(64);
    let mut b: u64 = 0;
    while b < 64
        invariant
            b <= 64,
            out@.len() == b,
            forall|j: int| 0 <= j < b ==> #[trigger] out@[j].val() == fbool(lane_bit(rc, j)),
        decreases 64 - b,
    {
        if (rc >> b) & 1 == 1 {
            out.push(E::lit(1));
        } else {
            out.push(E::lit(0));
        }
        b += 1;
    }
    proof {
        assert(evals(out@) =~= rc_vals(rc));
    }
    out
}

/// The expected next-state bit expressions for one round with a constant round constant.
pub fn keccak_round_bits_expr<E: Expr>(curr_bits: &[E], rc: u64) -> (out: Vec<E>)
    requires
        curr_bits@.len() == 1600,
    ensures
        evals(out@) == round_cells(evals(curr_bits@), rc_vals(rc)),
{
    let rc_bits = rc_literals::<E>(rc);
    keccak_round_bits_expr_with_rc(curr_bits, rc_bits.as_slice())
}

/// Asserts `enable * (next[i] - expected[i])` for every state cell.
pub fn constrain_cells<S: ConstraintSink>(
    sink: &mut S,
    next_bits: &[S::E],
    expected: &[S::E],
    enable: &S::E,
)
    requires
        next_bits@.len() == 1600,
        expected@.len() == 1600,
    ensures
        final(sink).emitted() == old(sink).emitted() + Seq::new(
            1600,
            |i: int| fmul(enable.val(), fsub(next_bits@[i].val(), expected@[i].val())),
        ),
{
    let ghost base = sink.emitted();
    let ghost want = Seq::new(
        1600,
        |i: int| fmul(enable.val(), fsub(next_bits@[i].val(), expected@[i].val())),
    );
    let mut i: usize = 0;
    while i < 1600
        invariant
            i <= 1600,
            next_bits@.len() == 1600,
            expected@.len() == 1600,
            want == Seq::new(
                1600,
                |i: int| fmul(enable.val(), fsub(next_bits@[i].val(), expected@[i].val())),
            ),
            sink.emitted() == base + want.take(i as int),
        decreases 1600 - i,
    {
        sink.assert_zero(enable.times(&next_bits[i].minus(&expected[i])));
        proof {
            assert(sink.emitted() =~= base + want.take(i + 1));
        }
        i += 1;
    }
    proof {
        assert(want.take(1600) =~= want);
    }
}

/// When `enable` is one, `next` must be the round with constant `rc` applied to `curr`.
pub fn constrain_keccak_round<S: ConstraintSink>(
    sink: &mut S,
    curr_bits: &[S::E],
    next_bits: &[S::E],
    rc: u64,
    enable: &S::E,
)
    requires
        curr_bits@.len() == 1600,
        next_bits@.len() == 1600,
    ensures
        final(sink).emitted() == old(sink).emitted() + round_constraints(
            evals(curr_bits@),
            evals(next_bits@),
            rc_vals(rc),
            enable.val(),
        ),
{
    let rc_bits = rc_literals::<S::E>(rc);
    constrain_keccak_round_with_rc(sink, curr_bits, next_bits, rc_bits.as_slice(), enable);
}

/// As [`constrain_keccak_round`], with the round constant given as bit expressions.
pub fn constrain_keccak_round_with_rc<S: ConstraintSink>(
    sink: &mut S,
    curr_bits: &[S::E],
    next_bits: &[S::E],
    rc_bits: &[S::E],
    enable: &S::E,
)
    requires
        curr_bits@.len() == 1600,
        next_bits@.len() == 1600,
        rc_bits@.len() == 64,
    ensures
        final(sink).emitted() == old(sink).emitted() + round_constraints(
            evals(curr_bits@),
            evals(next_bits@),
            evals(rc_bits@),
            enable.val(),
        ),
{
    let expected = keccak_round_bits_expr_with_rc(curr_bits, rc_bits);
    proof {
        assert(evals(expected@).len() == 1600);
        assert forall|i: int| 0 <= i < 1600 implies #[trigger] expected@[i].val() == round_cell(
            evals(curr_bits@),
            evals(rc_bits@),
            i,
        ) by {
            assert(evals(expected@)[i] == expected@[i].val());
        }
    }
    constrain_cells(sink, next_bits, expected.as_slice(), enable);
    proof {
        assert(Seq::new(
            1600,
            |i: int| fmul(enable.val(), fsub(next_bits@[i].val(), expected@[i].val())),
        ) =~= round_constraints(
            evals(curr_bits@),
            evals(next_bits@),
            evals(rc_bits@),
            enable.val(),
        ));
    }
}

/// Constraint system of a single round with a fixed round constant.
#[derive(Copy, Clone, Debug)]
pub struct KeccakFRoundAir {
    pub rc: u64,
}

impl KeccakFRoundAir {
    /// The system for round constant `rc`.
    pub fn new(rc: u64) -> (r: Self)
        ensures
            r.rc == rc,
    {
        KeccakFRoundAir { rc }
    }

    /// The system for round `round_idx`, counted modulo the number of rounds.
    pub fn round(round_idx: usize) -> (r: Self)
        ensures
            r.rc == RC@[round_idx as int % 24],
    {
        let rc = RC;
        KeccakFRoundAir { rc: rc[round_idx % 24] }
    }

    pub fn width(&self) -> (r: usize)
        ensures
            r == KECCAK_F_WIDTH,
    {
        KECCAK_F_WIDTH
    }

    pub fn max_constraint_degree(&self) -> (r: Option<usize>)
        ensures
            r == Some(3usize),
    {
        Some(3)
    }

    pub fn num_public_values(&self) -> (r: usize)
        ensures
            r == 0,
    {
        0
    }

    /// The values the system emits on a window.
    pub open spec fn constraints(self, w: WindowVals) -> Seq<int> {
        bit_constraints(w.curr) + round_constraints(
            w.curr.take(1600),
            w.next.take(1600),
            rc_vals(self.rc),
            fmul3(w.trans, w.curr[1600], w.next[1600]),
        )
    }

    /// Emits the system's constraints: every cell is a bit, and between two live rows the
    /// state advances by one round.
    pub fn eval<S: ConstraintSink>(&self, sink: &mut S, w: &Window<S::E>)
        requires
            w.curr@.len() == KECCAK_F_WIDTH,
            w.next@.len() == KECCAK_F_WIDTH,
        ensures
            final(sink).emitted() == old(sink).emitted() + self.constraints(w@),
    {
        let ghost base = sink.emitted();
        assert_bits(sink, w.curr.as_slice());
        let enable = w.trans.times(&w.curr[LIVE_COL]).times(&w.next[LIVE_COL]);
        let c = vstd::slice::slice_subrange(w.curr.as_slice(), 0, KECCAK_STATE_BITS);
        let n = vstd::slice::slice_subrange(w.next.as_slice(), 0, KECCAK_STATE_BITS);
        constrain_keccak_round(sink, c, n, self.rc, &enable);
        proof {
            assert(evals(c@) =~= w@.curr.take(1600));
            assert(evals(n@) =~= w@.next.take(1600));
            assert(sink.emitted() =~= base + self.constraints(w@));
        }
    }
}

/// Bits as residues.
pub open spec fn bit_vals(b: Seq<bool>) -> Seq<int> {
    Seq::new(b.len(), |i: int| fbool(b[i]))
}

pub proof fn lemma_fxor_bits(p: bool, q: bool)
    ensures
        fxor(fbool(p), fbool(q)) == fbool(p != q),
{
}

pub proof fn lemma_bit_xor(x: u64, y: u64, b: int)
    requires
        0 <= b < 64,
    ensures
        lane_bit(x ^ y, b) == (lane_bit(x, b) != lane_bit(y, b)),
{
    let k: u64 = b as u64;
    assert((((x ^ y) >> k) & 1 == 1) == (((x >> k) & 1 == 1) != ((y >> k) & 1 == 1))) by (bit_vector)
        requires
            k < 64,
    ;
}

proof fn lemma_bit_andnot(x: u64, y: u64, b: int)
    requires
        0 <= b < 64,
    ensures
        lane_bit((!x) & y, b) == (!lane_bit(x, b) && lane_bit(y, b)),
{
    let k: u64 = b as u64;
    assert(((((!x) & y) >> k) & 1 == 1) == (!((x >> k) & 1 == 1) && ((y >> k) & 1 == 1)))
        by (bit_vector)
        requires
            k < 64,
    ;
}

proof fn lemma_bit_rotl(x: u64, n: u32, b: int)
    requires
        0 <= b < 64,
        n < 64,
    ensures
        lane_bit(rotl(x, n), b) == lane_bit(x, (b + 64 - n) % 64),
{
    let k: u64 = b as u64;
    if n == 0 {
    } else {
        let m: u32 = (64 - n) as u32;
        let j: u64 = ((b + 64 - n) % 64) as u64;
        if b >= n {
            assert(j == k - n);
            assert(((((x << n) | (x >> m)) >> k) & 1 == 1) == ((x >> j) & 1 == 1)) by (bit_vector)
                requires
                    1 <= n < 64,
                    m == 64 - n,
                    k < 64,
                    k >= n,
                    j == k - n,
            ;
        } else {
            assert(j == k + 64 - n);
            assert(((((x << n) | (x >> m)) >> k) & 1 == 1) == ((x >> j) & 1 == 1)) by (bit_vector)
                requires
                    1 <= n < 64,
                    m == 64 - n,
                    k < n,
                    j == k + 64 - n,
            ;
        }
    }
}

pub proof fn lemma_cell(s: Seq<u64>, l: int, b: int)
    requires
        s.len() == 25,
        0 <= l < 25,
        0 <= b < 64,
    ensures
        bit_vals(state_bits(s))[l * 64 + b] == fbool(lane_bit(s[l], b)),
{
    let i: int = l * 64 + b;
    assert(i / 64 == l && i % 64 == b);
    assert(state_bits(s)[i] == lane_bit(s[l], b));
}

proof fn lemma_col_parity(s: Seq<u64>, x: int, b: int)
    requires
        s.len() == 25,
        0 <= x < 5,
        0 <= b < 64,
    ensures
        col_parity(bit_vals(state_bits(s)), x, b) == fbool(lane_bit(theta_c(s, x), b)),
{
    reveal(col_parity);
    lemma_cell(s, x, b);
    lemma_cell(s, 5 + x, b);
    lemma_cell(s, 10 + x, b);
    lemma_cell(s, 15 + x, b);
    lemma_cell(s, 20 + x, b);
    let y1: u64 = s[x] ^ s[x + 5];
    let y2: u64 = y1 ^ s[x + 10];
    let y3: u64 = y2 ^ s[x + 15];
    lemma_bit_xor(s[x], s[x + 5], b);
    lemma_bit_xor(y1, s[x + 10], b);
    lemma_bit_xor(y2, s[x + 15], b);
    lemma_bit_xor(y3, s[x + 20], b);
    lemma_fxor_bits(false, lane_bit(s[x], b));
    lemma_fxor_bits(lane_bit(s[x], b), lane_bit(s[x + 5], b));
    lemma_fxor_bits(lane_bit(y1, b), lane_bit(s[x + 10], b));
    lemma_fxor_bits(lane_bit(y2, b), lane_bit(s[x + 15], b));
    lemma_fxor_bits(lane_bit(y3, b), lane_bit(s[x + 20], b));
}

proof fn lemma_theta_cell(s: Seq<u64>, l: int, b: int)
    requires
        s.len() == 25,
        0 <= l < 25,
        0 <= b < 64,
    ensures
        theta_cell(bit_vals(state_bits(s)), l * 64 + b) == fbool(lane_bit(theta(s)[l], b)),
{
    reveal(theta_cell);
    let x: int = l % 5;
    let i: int = l * 64 + b;
    assert(i / 64 == l && i % 64 == b);
    let c1: u64 = theta_c(s, (x + 4) % 5);
    let c2: u64 = theta_c(s, (x + 1) % 5);
    lemma_cell(s, l, b);
    lemma_col_parity(s, (x + 4) % 5, b);
    lemma_col_parity(s, (x + 1) % 5, (b + 63) % 64);
    lemma_bit_rotl(c2, 1, b);
    lemma_bit_xor(c1, rotl(c2, 1), b);
    lemma_bit_xor(s[l], theta_d(s, x), b);
    lemma_fxor_bits(lane_bit(c1, b), lane_bit(rotl(c2, 1), b));
    lemma_fxor_bits(lane_bit(s[l], b), lane_bit(theta_d(s, x), b));
}

proof fn lemma_rho_pi_cell(s: Seq<u64>, l: int, b: int)
    requires
        s.len() == 25,
        0 <= l < 25,
        0 <= b < 64,
    ensures
        rho_pi_cell(bit_vals(state_bits(s)), l * 64 + b) == fbool(
            lane_bit(rho_pi(theta(s))[l], b),
        ),
{
    let i: int = l * 64 + b;
    assert(i / 64 == l && i % 64 == b);
    reveal(rho_pi_cell);
    let src: int = pi_source(l);
    lemma_rho_bound(src);
    let c: int = (b + 64 - RHO@[src]) % 64;
    lemma_theta_cell(s, src, c);
    lemma_bit_rotl(theta(s)[src], RHO@[src], b);
}

proof fn lemma_chi_cell(s: Seq<u64>, l: int, b: int)
    requires
        s.len() == 25,
        0 <= l < 25,
        0 <= b < 64,
    ensures
        chi_cell(bit_vals(state_bits(s)), l * 64 + b) == fbool(
            lane_bit(chi(rho_pi(theta(s)))[l], b),
        ),
{
    reveal(chi_cell);
    let p = rho_pi(theta(s));
    let i: int = l * 64 + b;
    assert(i / 64 == l && i % 64 == b);
    let l1: int = plane_step(l, 1);
    let l2: int = plane_step(l, 2);
    lemma_rho_pi_cell(s, l, b);
    lemma_rho_pi_cell(s, l1, b);
    lemma_rho_pi_cell(s, l2, b);
    lemma_bit_andnot(p[l1], p[l2], b);
    lemma_bit_xor(p[l], (!p[l1]) & p[l2], b);
    let t: bool = lane_bit((!p[l1]) & p[l2], b);
    assert(fmul(fsub(1, fbool(lane_bit(p[l1], b))), fbool(lane_bit(p[l2], b))) == fbool(t));
    lemma_fxor_bits(lane_bit(p[l], b), t);
}

/// On bits, the round expressions compute the bits of the Keccak round.
pub proof fn lemma_round_cells(s: Seq<u64>, rc: u64)
    requires
        s.len() == 25,
    ensures
        round_cells(bit_vals(state_bits(s)), rc_vals(rc)) == bit_vals(state_bits(round(s, rc))),
{
    let a = bit_vals(state_bits(s));
    let q = chi(rho_pi(theta(s)));
    let out = round(s, rc);
    assert forall|i: int| 0 <= i < 1600 implies #[trigger] round_cells(a, rc_vals(rc))[i]
        == bit_vals(state_bits(out))[i] by {
        reveal(round_cell);
        reveal(round);
        let l: int = i / 64;
        let b: int = i % 64;
        assert(i == l * 64 + b);
        lemma_chi_cell(s, l, b);
        if i < 64 {
            lemma_bit_xor(q[0], rc, b);
            lemma_fxor_bits(lane_bit(q[0], b), lane_bit(rc, b));
        }
        assert(state_bits(out)[i] == lane_bit(out[l], b));
    }
    assert(round_cells(a, rc_vals(rc)) =~= bit_vals(state_bits(out)));
}

/// With the selector on, the round constraints on bits vanish exactly when the second state
/// is the round applied to the first.
pub proof fn lemma_round_constraints_exact(s: Seq<u64>, t: Seq<u64>, rc: u64)
    requires
        s.len() == 25,
        t.len() == 25,
    ensures
        all_zero(
            round_constraints(bit_vals(state_bits(s)), bit_vals(state_bits(t)), rc_vals(rc), 1),
        ) <==> t == round(s, rc),
{
    let a = bit_vals(state_bits(s));
    let n = bit_vals(state_bits(t));
    let rcs = round_constraints(a, n, rc_vals(rc), 1);
    reveal(round);
    lemma_round_cells(s, rc);
    let o = state_bits(round(s, rc));
    assert forall|i: int| 0 <= i < 1600 implies (#[trigger] rcs[i] == 0 <==> state_bits(t)[i]
        == o[i]) by {
        assert(round_cells(a, rc_vals(rc))[i] == bit_vals(o)[i]);
        assert(round_cells(a, rc_vals(rc))[i] == round_cell(a, rc_vals(rc), i));
        assert(n[i] == fbool(state_bits(t)[i]));
        assert(bit_vals(o)[i] == fbool(o[i]));
    }
    if all_zero(rcs) {
        assert forall|i: int| 0 <= i < 1600 implies state_bits(t)[i] == o[i] by {
            assert(rcs[i] == 0);
        }
        assert(state_bits(t) =~= o);
        lemma_state_bits_injective(t, round(s, rc));
    }
}

/// Between two live rows of bits the system holds exactly when the second state is the
/// round applied to the first.
pub proof fn lemma_round_air_exact(air: KeccakFRoundAir, s: Seq<u64>, t: Seq<u64>, w: WindowVals)
    requires
        s.len() == 25,
        t.len() == 25,
        w.curr == bit_vals(state_bits(s)).push(1),
        w.next == bit_vals(state_bits(t)).push(1),
        w.trans == 1,
    ensures
        all_zero(air.constraints(w)) <==> t == round(s, air.rc),
{
    let a = bit_vals(state_bits(s));
    let n = bit_vals(state_bits(t));
    assert(w.curr.take(1600) =~= a);
    assert(w.next.take(1600) =~= n);
    lemma_all_zero_concat(
        bit_constraints(w.curr),
        round_constraints(a, n, rc_vals(air.rc), fmul3(1, 1, 1)),
    );
    assert(fmul3(1, 1, 1) == 1);
    assert forall|i: int| 0 <= i < 1601 implies #[trigger] bit_constraints(w.curr)[i] == 0 by {
        assert(w.curr[i] == 0 || w.curr[i] == 1);
    }
    lemma_round_constraints_exact(s, t, air.rc);
}

} // verus!
