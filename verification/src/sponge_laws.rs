//! The sponge trace of a message satisfies the sponge system.
use vstd::prelude::*;

use crate::bits::nat_bit;
use crate::constraint::{all_zero, bit_constraints, fxor, lemma_all_zero_concat, WindowVals};
use crate::field::{fbool, fmul, fsub};
use crate::keccak256_air::{
    is_sponge_trace, lemma_sponge_rows, sponge_publics, sponge_row, sponge_selectors,
    sponge_trace_row, Keccak256SpongeAir,
};
use crate::keccak_f_air::{
    bit_vals, lemma_bit_xor, lemma_cell, lemma_fxor_bits, lemma_round_cells,
    lemma_round_constraints_exact, rc_vals, round_cells, round_constraints,
};
use crate::keccak_f_native::{
    absorb, absorbed, block_state, bytes_state, final_state, keccak256_spec, lane_bit, lane_byte,
    last_block_state, lemma_rounds_len, lemma_state_bytes_roundtrip, pad, perm_input, permute,
    round, rounds, state_bits, state_bytes, witness_state, xor_at, zero_state, KECCAK_DELIM, RC,
};
use crate::matrix::RowMajorMatrix;
use crate::sponge_gadgets::{
    bits_value, bits_value_upto, bytes_constraints, eq_bits, eq_bits_sum, eq_bits_upto, first_block,
    fpow2, hold_constraints, packed_byte, rc_select, rc_select_upto, round_counter_constraints,
    second_block_byte, second_block_constraints, start_constraints, step_constraints, xor_byte,
    zero_constraints,
};

verus! {

/// The five counter bits of a round.
pub open spec fn round_bits(r: int) -> Seq<int> {
    Seq::new(5, |k: int| fbool(nat_bit(r, k as nat)))
}

/// The low bits of two numbers agree.
spec fn agree(r: int, t: int, n: nat) -> bool {
    forall|k: nat| k < n ==> #[trigger] nat_bit(r, k) == nat_bit(t, k)
}

proof fn lemma_eq_upto(r: int, t: int, n: nat)
    requires
        n <= 5,
    ensures
        eq_bits_upto(round_bits(r), t, n) == fbool(agree(r, t, n)),
    decreases n,
{
    if n > 0 {
        let m = (n - 1) as nat;
        lemma_eq_upto(r, t, m);
        assert(round_bits(r)[n - 1] == fbool(nat_bit(r, m)));
        assert(agree(r, t, n) == (agree(r, t, m) && nat_bit(r, m) == nat_bit(t, m))) by {
            if agree(r, t, m) && nat_bit(r, m) == nat_bit(t, m) {
                assert forall|k: nat| k < n implies #[trigger] nat_bit(r, k) == nat_bit(t, k) by {
                    if k < m {
                    } else {
                        assert(k == m);
                    }
                }
            }
        }
    }
}

/// The selector for `t` is on exactly at round `t`.
pub proof fn lemma_eq_bits(r: int, t: int)
    requires
        0 <= r < 32,
        0 <= t < 32,
    ensures
        eq_bits(round_bits(r), t) == fbool(r == t),
{
    lemma_eq_upto(r, t, 5);
    if agree(r, t, 5) {
        reveal_with_fuel(nat_bit, 6);
        assert(nat_bit(r, 0) == nat_bit(t, 0));
        assert(nat_bit(r, 1) == nat_bit(t, 1));
        assert(nat_bit(r, 2) == nat_bit(t, 2));
        assert(nat_bit(r, 3) == nat_bit(t, 3));
        assert(nat_bit(r, 4) == nat_bit(t, 4));
    }
}

/// The counter bits spell the round.
pub proof fn lemma_round_value(r: int)
    requires
        0 <= r < 32,
    ensures
        bits_value(round_bits(r)) == r,
{
    let b = round_bits(r);
    reveal_with_fuel(bits_value_upto, 6);
    reveal_with_fuel(fpow2, 6);
    reveal_with_fuel(nat_bit, 6);
    assert(fpow2(0) == 1 && fpow2(1) == 2 && fpow2(2) == 4 && fpow2(3) == 8 && fpow2(4) == 16);
    assert(b[0] == fbool(r % 2 == 1));
    assert(b[1] == fbool(r / 2 % 2 == 1));
    assert(b[2] == fbool(r / 2 / 2 % 2 == 1));
    assert(b[3] == fbool(r / 2 / 2 / 2 % 2 == 1));
    assert(b[4] == fbool(r / 2 / 2 / 2 / 2 % 2 == 1));
}

/// The selectors of the rounds below `n` sum to one below `n` and to zero from there.
pub proof fn lemma_round_sum(r: int, n: nat)
    requires
        0 <= r < 32,
        n <= 24,
    ensures
        eq_bits_sum(round_bits(r), n) == fbool(r < n),
    decreases n,
{
    if n > 0 {
        lemma_round_sum(r, (n - 1) as nat);
        lemma_eq_bits(r, n - 1);
    }
}

proof fn lemma_rc_upto(r: int, b: int, n: nat)
    requires
        0 <= r < 24,
        0 <= b < 64,
        n <= 24,
    ensures
        rc_select_upto(round_bits(r), b, n) == fbool(r < n && lane_bit(RC@[r], b)),
    decreases n,
{
    if n > 0 {
        lemma_rc_upto(r, b, (n - 1) as nat);
        lemma_eq_bits(r, n - 1);
    }
}

/// The counter selects the constant of its round.
pub proof fn lemma_rc_select(r: int)
    requires
        0 <= r < 24,
    ensures
        rc_select(round_bits(r)) == rc_vals(RC@[r]),
{
    assert forall|b: int| 0 <= b < 64 implies #[trigger] rc_select(round_bits(r))[b] == rc_vals(
        RC@[r],
    )[b] by {
        lemma_rc_upto(r, b, 24);
    }
    assert(rc_select(round_bits(r)) =~= rc_vals(RC@[r]));
}

/// The bits of a lane are those of its bytes.
pub proof fn lemma_byte_bits(x: u64, j: int, k: int)
    requires
        0 <= j < 8,
        0 <= k < 8,
    ensures
        lane_bit(x, 8 * j + k) == ((lane_byte(x, j) >> (k as u8)) & 1 == 1),
{
    let s: u64 = (8 * j) as u64;
    let t: u64 = (8 * j + k) as u64;
    let k8: u8 = k as u8;
    assert(((x >> t) & 1 == 1) == ((((((x >> s) & 0xff) as u8) >> k8) & 1) == 1)) by (bit_vector)
        requires
            s <= 56,
            k8 < 8,
            t == s + k8,
    ;
}

/// One more bit adds its power.
proof fn lemma_value_step(b: Seq<int>, n: nat, v: int, p: int)
    requires
        bits_value_upto(b, n) == v,
        fpow2(n) == p,
        0 <= v < p,
        1 <= p <= 128,
        b[n as int] == 0 || b[n as int] == 1,
    ensures
        bits_value_upto(b, n + 1) == v + p * b[n as int],
        fpow2(n + 1) == 2 * p,
        0 <= v + p * b[n as int] < 2 * p,
{
    let x = b[n as int];
    assert(x * p == p * x && (x == 0 ==> p * x == 0) && (x == 1 ==> p * x == p))
        by (nonlinear_arith)
        requires
            x == 0 || x == 1,
    ;
}

/// Eight bits spell their byte.
proof fn lemma_byte_value(y: u8, b: Seq<int>)
    requires
        b.len() == 8,
        forall|k: int| 0 <= k < 8 ==> #[trigger] b[k] == fbool((y >> (k as u8)) & 1 == 1),
    ensures
        bits_value(b) == y,
{
    assert(y == ((y >> 0u8) & 1) + 2 * ((y >> 1u8) & 1) + 4 * ((y >> 2u8) & 1) + 8 * ((y >> 3u8)
        & 1) + 16 * ((y >> 4u8) & 1) + 32 * ((y >> 5u8) & 1) + 64 * ((y >> 6u8) & 1) + 128 * ((y
        >> 7u8) & 1)) by (bit_vector);
    assert(((y >> 0u8) & 1) <= 1 && ((y >> 1u8) & 1) <= 1 && ((y >> 2u8) & 1) <= 1 && ((y >> 3u8)
        & 1) <= 1 && ((y >> 4u8) & 1) <= 1 && ((y >> 5u8) & 1) <= 1 && ((y >> 6u8) & 1) <= 1 && ((
    y >> 7u8) & 1) <= 1) by (bit_vector);
    assert(b[0] == (y >> 0u8) & 1);
    assert(b[1] == (y >> 1u8) & 1);
    assert(b[2] == (y >> 2u8) & 1);
    assert(b[3] == (y >> 3u8) & 1);
    assert(b[4] == (y >> 4u8) & 1);
    assert(b[5] == (y >> 5u8) & 1);
    assert(b[6] == (y >> 6u8) & 1);
    assert(b[7] == (y >> 7u8) & 1);
    lemma_value_step(b, 0, 0, 1);
    let v1 = b[0];
    lemma_value_step(b, 1, v1, 2);
    let v2 = v1 + 2 * b[1];
    lemma_value_step(b, 2, v2, 4);
    let v3 = v2 + 4 * b[2];
    lemma_value_step(b, 3, v3, 8);
    let v4 = v3 + 8 * b[3];
    lemma_value_step(b, 4, v4, 16);
    let v5 = v4 + 16 * b[4];
    lemma_value_step(b, 5, v5, 32);
    let v6 = v5 + 32 * b[5];
    lemma_value_step(b, 6, v6, 64);
    let v7 = v6 + 64 * b[6];
    lemma_value_step(b, 7, v7, 128);
}

/// Eight state bits pack to their state byte.
pub proof fn lemma_packed_byte(s: Seq<u64>, i: int)
    requires
        s.len() == 25,
        0 <= i < 200,
    ensures
        packed_byte(bit_vals(state_bits(s)), i) == state_bytes(s)[i],
{
    let b = bit_vals(state_bits(s)).subrange(8 * i, 8 * i + 8);
    let j = i % 8;
    let l = i / 8;
    let y = lane_byte(s[l], j);
    assert forall|k: int| 0 <= k < 8 implies #[trigger] b[k] == fbool((y >> (k as u8)) & 1 == 1) by {
        assert(8 * i + k == l * 64 + (8 * j + k));
        lemma_cell(s, l, 8 * j + k);
        lemma_byte_bits(s[l], j, k);
    }
    lemma_byte_value(y, b);
}

proof fn lemma_byte_xor(x: u64, y: u64, j: int)
    requires
        0 <= j < 8,
    ensures
        lane_byte(x ^ y, j) == lane_byte(x, j) ^ lane_byte(y, j),
{
    let s: u64 = (8 * j) as u64;
    assert((((x ^ y) >> s) & 0xff) as u8 == ((((x >> s) & 0xff) as u8) ^ (((y >> s) & 0xff) as u8)))
        by (bit_vector)
        requires
            s <= 56,
    ;
}

/// The packed exclusive or of two state bytes is the exclusive or of the bytes.
pub proof fn lemma_xor_byte(s: Seq<u64>, t: Seq<u64>, i: int)
    requires
        s.len() == 25,
        t.len() == 25,
        0 <= i < 200,
    ensures
        xor_byte(bit_vals(state_bits(s)), bit_vals(state_bits(t)), i) == state_bytes(s)[i]
            ^ state_bytes(t)[i],
{
    let a = bit_vals(state_bits(s));
    let c = bit_vals(state_bits(t));
    let b = Seq::new(8, |k: int| fxor(a[8 * i + k], c[8 * i + k]));
    let j = i % 8;
    let l = i / 8;
    let x = s[l] ^ t[l];
    let y = lane_byte(x, j);
    assert forall|k: int| 0 <= k < 8 implies #[trigger] b[k] == fbool((y >> (k as u8)) & 1 == 1) by {
        assert(8 * i + k == l * 64 + (8 * j + k));
        lemma_cell(s, l, 8 * j + k);
        lemma_cell(t, l, 8 * j + k);
        lemma_bit_xor(s[l], t[l], 8 * j + k);
        lemma_fxor_bits(lane_bit(s[l], 8 * j + k), lane_bit(t[l], 8 * j + k));
        lemma_byte_bits(x, j, k);
    }
    lemma_byte_value(y, b);
    lemma_byte_xor(s[l], t[l], j);
}

/// The parts of a trace row.
pub proof fn lemma_row_parts(s: Seq<u64>, live: bool, r: int)
    requires
        s.len() == 25,
    ensures
        ({
            let row = sponge_row(state_bits(s), live, r);
            &&& row.len() == 1606
            &&& row.take(1600) == bit_vals(state_bits(s))
            &&& row[1600] == fbool(live)
            &&& row.subrange(1601, 1606) == round_bits(
                if live {
                    r
                } else {
                    0
                },
            )
            &&& forall|i: int| 0 <= i < 1606 ==> #[trigger] row[i] == 0 || row[i] == 1
        }),
{
    let row = sponge_row(state_bits(s), live, r);
    assert(row.take(1600) =~= bit_vals(state_bits(s)));
    reveal_with_fuel(nat_bit, 6);
    assert(row.subrange(1601, 1606) =~= round_bits(
        if live {
            r
        } else {
            0
        },
    ));
}

/// Bit constraints hold on bits.
pub proof fn lemma_bits_zero(row: Seq<int>)
    requires
        forall|i: int| 0 <= i < row.len() ==> #[trigger] row[i] == 0 || row[i] == 1,
    ensures
        all_zero(bit_constraints(row)),
{
    assert forall|i: int| 0 <= i < row.len() implies #[trigger] bit_constraints(row)[i] == 0 by {
        assert(row[i] == 0 || row[i] == 1);
    }
}

/// The counter constraints hold on a live row below 24 and on an idle row at zero.
pub proof fn lemma_counter_zero(live: bool, r: int)
    requires
        0 <= r < 24,
        live || r == 0,
    ensures
        all_zero(round_counter_constraints(fbool(live), round_bits(r))),
{
    lemma_round_sum(r, 24);
    reveal_with_fuel(nat_bit, 6);
    let c = round_counter_constraints(fbool(live), round_bits(r));
    assert forall|i: int| 0 <= i < c.len() implies #[trigger] c[i] == 0 by {
        if i > 0 {
            assert(c[i] == fmul(fsub(1, fbool(live)), round_bits(r)[i - 1]));
        }
    }
}

/// Round constraints hold where they are off.
pub proof fn lemma_round_off(a: Seq<int>, b: Seq<int>, rc: Seq<int>)
    ensures
        all_zero(round_constraints(a, b, rc, 0)),
{
}

/// The step constraints hold where each selector that is on sees the round.
pub proof fn lemma_step_zero(
    s: Seq<u64>,
    t: Seq<u64>,
    r: int,
    rn: int,
    cont: bool,
    to_final: bool,
)
    requires
        s.len() == 25,
        t.len() == 25,
        0 <= r < 24,
        cont ==> t == round(s, RC@[r]) && rn == r + 1,
        to_final ==> t == round(s, RC@[r]) && r == 23,
    ensures
        all_zero(
            step_constraints(
                bit_vals(state_bits(s)),
                bit_vals(state_bits(t)),
                rc_vals(RC@[r]),
                fbool(cont),
                fbool(to_final),
                r,
                rn,
            ),
        ),
{
    reveal(step_constraints);
    let a = bit_vals(state_bits(s));
    let b = bit_vals(state_bits(t));
    let rc = rc_vals(RC@[r]);
    lemma_round_constraints_exact(s, t, RC@[r]);
    lemma_round_off(a, b, rc);
    let x = round_constraints(a, b, rc, fbool(cont));
    let y = seq![fmul(fbool(cont), fsub(fsub(rn, r), 1))];
    let z = round_constraints(a, b, rc, fbool(to_final));
    let v = seq![fmul(fbool(to_final), fsub(r, 23))];
    assert(all_zero(y));
    assert(all_zero(v));
    lemma_all_zero_concat(x, y);
    lemma_all_zero_concat(x + y, z);
    lemma_all_zero_concat(x + y + z, v);
}

/// The hold constraints hold where the rows agree or nothing is held.
pub proof fn lemma_hold_zero(a: Seq<int>, b: Seq<int>, en: bool)
    requires
        a.len() == b.len(),
        en ==> a == b,
    ensures
        all_zero(hold_constraints(a, b, fbool(en))),
{
    let c = hold_constraints(a, b, fbool(en));
    assert forall|i: int| 0 <= i < c.len() implies #[trigger] c[i] == 0 by {
        assert(c[i] == fmul(fbool(en), fsub(b[i], a[i])));
    }
}

/// The byte constraints hold where the state holds the bytes.
pub proof fn lemma_bytes_zero(s: Seq<u64>, from: int, want: Seq<int>, en: bool)
    requires
        s.len() == 25,
        0 <= from,
        from + want.len() <= 200,
        en ==> forall|i: int| 0 <= i < want.len() ==> #[trigger] want[i] == state_bytes(s)[from + i],
    ensures
        all_zero(bytes_constraints(bit_vals(state_bits(s)), from, want, fbool(en))),
{
    let c = bytes_constraints(bit_vals(state_bits(s)), from, want, fbool(en));
    assert forall|i: int| 0 <= i < c.len() implies #[trigger] c[i] == 0 by {
        lemma_packed_byte(s, from + i);
        assert(c[i] == fmul(
            fbool(en),
            fsub(packed_byte(bit_vals(state_bits(s)), from + i), want[i]),
        ));
        if en {
            assert(want[i] == state_bytes(s)[from + i]);
        }
    }
}

/// The cells of a zero lane are zero.
pub proof fn lemma_zero_lane(b: int)
    requires
        0 <= b < 64,
    ensures
        !lane_bit(0, b),
{
    let k: u64 = b as u64;
    assert((0u64 >> k) & 1 == 0) by (bit_vector);
}

/// The state starts a sponge with these bytes.
pub open spec fn starts_with(s: Seq<u64>, block: Seq<int>) -> bool {
    &&& forall|i: int| 0 <= i < 136 ==> #[trigger] block[i] == state_bytes(s)[i]
    &&& forall|l: int| 17 <= l < 25 ==> #[trigger] s[l] == 0
}

/// The capacity cells of a starting row are zero.
pub proof fn lemma_capacity_zero(s: Seq<u64>, en: bool)
    requires
        s.len() == 25,
        en ==> forall|l: int| 17 <= l < 25 ==> #[trigger] s[l] == 0,
    ensures
        all_zero(zero_constraints(bit_vals(state_bits(s)).subrange(1088, 1600), fbool(en))),
{
    let cap = bit_vals(state_bits(s)).subrange(1088, 1600);
    let y = zero_constraints(cap, fbool(en));
    assert forall|i: int| 0 <= i < y.len() implies #[trigger] y[i] == 0 by {
        assert(y[i] == fmul(fbool(en), cap[i]));
        if en {
            let l = (1088 + i) / 64;
            let b = (1088 + i) % 64;
            assert(1088 + i == l * 64 + b);
            lemma_cell(s, l, b);
            lemma_zero_lane(b);
            assert(s[l] == 0);
        }
    }
}

/// The start constraints hold on a starting row.
pub proof fn lemma_start_zero(s: Seq<u64>, block: Seq<int>, live: bool, r: int, en: bool)
    requires
        s.len() == 25,
        block.len() == 136,
        en ==> starts_with(s, block) && live && r == 0,
    ensures
        all_zero(
            start_constraints(bit_vals(state_bits(s)), block, fbool(live), r, fbool(en)),
        ),
{
    reveal(start_constraints);
    let a = bit_vals(state_bits(s));
    lemma_bytes_zero(s, 0, block, en);
    let x = bytes_constraints(a, 0, block, fbool(en));
    lemma_capacity_zero(s, en);
    let y = zero_constraints(a.subrange(1088, 1600), fbool(en));
    let z = seq![fmul(fbool(en), fsub(fbool(live), 1)), fmul(fbool(en), r)];
    assert(all_zero(z));
    lemma_all_zero_concat(x, y);
    lemma_all_zero_concat(x + y, z);
}

/// State `t` is `e` with these bytes absorbed into the rate.
pub open spec fn absorbs(e: Seq<u64>, t: Seq<u64>, block: spec_fn(int) -> int) -> bool {
    &&& forall|i: int|
        0 <= i < 136 ==> (#[trigger] state_bytes(t)[i]) ^ state_bytes(e)[i] == block(i)
    &&& forall|l: int| 17 <= l < 25 ==> #[trigger] t[l] == e[l]
}

/// The second-block constraints hold where the block is absorbed after the round.
pub proof fn lemma_second_zero(
    s: Seq<u64>,
    t: Seq<u64>,
    rc: u64,
    pv: Seq<int>,
    base: int,
    len: int,
    rn: int,
    en: bool,
)
    requires
        s.len() == 25,
        t.len() == 25,
        en ==> rn == 0 && absorbs(
            round(s, rc),
            t,
            |i: int| second_block_byte(pv, base, len, i),
        ),
    ensures
        all_zero(
            second_block_constraints(
                bit_vals(state_bits(s)),
                bit_vals(state_bits(t)),
                rc_vals(rc),
                pv,
                base,
                len,
                rn,
                fbool(en),
            ),
        ),
{
    reveal(second_block_constraints);
    reveal(round);
    let a = bit_vals(state_bits(s));
    let b = bit_vals(state_bits(t));
    let e = round(s, rc);
    let expected = round_cells(a, rc_vals(rc));
    lemma_round_cells(s, rc);
    assert(e.len() == 25);
    let x = Seq::new(
        136,
        |i: int|
            fmul(fbool(en), fsub(xor_byte(b, expected, i), second_block_byte(pv, base, len, i))),
    );
    let y = Seq::new(512, |i: int| fmul(fbool(en), fsub(b[1088 + i], expected[1088 + i])));
    let z = seq![fmul(fbool(en), rn)];
    assert forall|i: int| 0 <= i < x.len() implies #[trigger] x[i] == 0 by {
        if en {
            lemma_xor_byte(t, e, i);
            let f = |i: int| second_block_byte(pv, base, len, i);
            assert(state_bytes(t)[i] ^ state_bytes(e)[i] == f(i));
        }
    }
    assert forall|i: int| 0 <= i < y.len() implies #[trigger] y[i] == 0 by {
        if en {
            let l = (1088 + i) / 64;
            let k = (1088 + i) % 64;
            assert(1088 + i == l * 64 + k);
            lemma_cell(t, l, k);
            lemma_cell(e, l, k);
            assert(t[l] == e[l]);
        }
    }
    assert(all_zero(z));
    lemma_all_zero_concat(x, y);
    lemma_all_zero_concat(x + y, z);
    assert(x + y + z =~= second_block_constraints(
        a,
        b,
        rc_vals(rc),
        pv,
        base,
        len,
        rn,
        fbool(en),
    ));
}

pub proof fn lemma_xor_bytes(x: u8, y: u8)
    ensures
        0u8 ^ x == x,
        x ^ 0u8 == x,
        (x ^ y) ^ x == y,
        x ^ x == 0,
        ((x ^ 1u8) ^ 0x80u8) ^ x == 0x81,
        (0u8 ^ 1u8) ^ 0x80u8 == 0x81,
        0u8 ^ 0u8 == 0,
{
    assert(0u8 ^ x == x) by (bit_vector);
    assert(x ^ 0u8 == x) by (bit_vector);
    assert((x ^ y) ^ x == y) by (bit_vector);
    assert(x ^ x == 0) by (bit_vector);
    assert(((x ^ 1u8) ^ 0x80u8) ^ x == 0x81) by (bit_vector);
    assert((0u8 ^ 1u8) ^ 0x80u8 == 0x81 && 0u8 ^ 0u8 == 0) by (bit_vector);
}

proof fn lemma_zero_bytes()
    ensures
        state_bytes(zero_state()) == Seq::new(200, |i: int| 0u8),
{
    assert forall|i: int| 0 <= i < 200 implies #[trigger] state_bytes(zero_state())[i] == 0 by {
        let s: u64 = (8 * (i % 8)) as u64;
        assert(((0u64 >> s) & 0xff) as u8 == 0) by (bit_vector);
    }
    assert(state_bytes(zero_state()) =~= Seq::new(200, |i: int| 0u8));
}

/// Lanes whose bytes are those of a state are its lanes.
proof fn lemma_same_lanes(b: Seq<u8>, e: Seq<u64>)
    requires
        b.len() == 200,
        e.len() == 25,
        forall|i: int| 136 <= i < 200 ==> #[trigger] b[i] == state_bytes(e)[i],
    ensures
        forall|l: int| 17 <= l < 25 ==> #[trigger] bytes_state(b)[l] == e[l],
{
    crate::keccak_f_native::lemma_bytes_state_roundtrip(e);
    let c = state_bytes(e);
    assert forall|l: int| 17 <= l < 25 implies #[trigger] bytes_state(b)[l] == e[l] by {
        assert(bytes_state(c)[l] == e[l]);
        assert(b[8 * l] == c[8 * l] && b[8 * l + 1] == c[8 * l + 1] && b[8 * l + 2] == c[8 * l + 2]
            && b[8 * l + 3] == c[8 * l + 3] && b[8 * l + 4] == c[8 * l + 4] && b[8 * l + 5] == c[8
            * l + 5] && b[8 * l + 6] == c[8 * l + 6] && b[8 * l + 7] == c[8 * l + 7]);
    }
}

/// A byte of a padded last block over the bytes of a state.
spec fn padded_byte(b: Seq<u8>, src: Seq<u8>, i: int) -> u8 {
    if i < src.len() {
        b[i] ^ src[i]
    } else if i == src.len() && i == 135 {
        (b[i] ^ 1u8) ^ 0x80u8
    } else if i == src.len() {
        b[i] ^ 1u8
    } else if i == 135 {
        b[i] ^ 0x80u8
    } else {
        b[i]
    }
}

proof fn lemma_padded_seq(b: Seq<u8>, src: Seq<u8>) -> (c: Seq<u8>)
    requires
        b.len() == 200,
        src.len() < 136,
    ensures
        c.len() == 200,
        ({
            let n = src.len() as int;
            let x = xor_at(b, 0, src);
            let y = x.update(n, x[n] ^ KECCAK_DELIM);
            c == y.update(135, y[135] ^ 0x80u8)
        }),
        forall|i: int| 0 <= i < 136 ==> #[trigger] c[i] == padded_byte(b, src, i),
        forall|i: int| 136 <= i < 200 ==> #[trigger] c[i] == b[i],
{
    let n = src.len() as int;
    let x = xor_at(b, 0, src);
    let y = x.update(n, x[n] ^ KECCAK_DELIM);
    assert(KECCAK_DELIM == 1);
    y.update(135, y[135] ^ 0x80u8)
}

/// The bytes of a padded last block over a state.
proof fn lemma_padded_bytes(e: Seq<u64>, src: Seq<u8>)
    requires
        e.len() == 25,
        src.len() < 136,
    ensures
        ({
            let t = pad(absorb(e, 0, src), src.len() as int);
            &&& t.len() == 25
            &&& forall|l: int| 17 <= l < 25 ==> #[trigger] t[l] == e[l]
            &&& forall|i: int|
                0 <= i < 136 ==> #[trigger] state_bytes(t)[i] == padded_byte(
                    state_bytes(e),
                    src,
                    i,
                )
        }),
{
    let b = state_bytes(e);
    let x = xor_at(b, 0, src);
    lemma_state_bytes_roundtrip(x);
    let c = lemma_padded_seq(b, src);
    lemma_state_bytes_roundtrip(c);
    assert(state_bytes(absorb(e, 0, src)) == x);
    assert(pad(absorb(e, 0, src), src.len() as int) == bytes_state(c));
    lemma_same_lanes(c, e);
}

/// The first permutation of a message starts from its first block.
pub proof fn lemma_first_block(msg: Seq<u8>, pv: Seq<int>, base: int)
    requires
        msg.len() < 272,
        0 <= base,
        base + msg.len() <= pv.len(),
        forall|i: int| 0 <= i < msg.len() ==> #[trigger] msg[i] == pv[base + i],
    ensures
        perm_input(msg, 0).len() == 25,
        starts_with(perm_input(msg, 0), first_block(pv, base, msg.len() as int)),
{
    let len = msg.len() as int;
    let z = zero_state();
    lemma_zero_bytes();
    if len < 136 {
        let src = msg.subrange(0, len);
        assert(src =~= msg);
        assert(absorbed(msg, 0) == z);
        lemma_padded_bytes(z, src);
        let t = pad(absorb(z, 0, src), len);
        assert(perm_input(msg, 0) == t);
        let block = first_block(pv, base, len);
        assert forall|i: int| 0 <= i < 136 implies #[trigger] block[i] == state_bytes(t)[i] by {
            lemma_xor_bytes(1, 0);
            lemma_xor_bytes(0x80, 0);
            if i < len {
                lemma_xor_bytes(msg[i], 0);
                assert(msg[i] == pv[base + i]);
            }
        }
    } else {
        let src = msg.subrange(0, 136);
        let b = xor_at(state_bytes(z), 0, src);
        lemma_state_bytes_roundtrip(b);
        let t = bytes_state(b);
        assert(perm_input(msg, 0) == block_state(msg, 0));
        assert(perm_input(msg, 0) == t);
        lemma_same_lanes(b, z);
        let block = first_block(pv, base, len);
        assert forall|i: int| 0 <= i < 136 implies #[trigger] block[i] == state_bytes(t)[i] by {
            lemma_xor_bytes(src[i], 0);
            assert(src[i] == msg[i]);
            assert(msg[i] == pv[base + i]);
        }
    }
}

/// The second permutation of a two-block message absorbs its second block.
pub proof fn lemma_second_block(msg: Seq<u8>, pv: Seq<int>, base: int)
    requires
        136 <= msg.len() < 272,
        0 <= base,
        base + msg.len() <= pv.len(),
        forall|i: int| 0 <= i < msg.len() ==> #[trigger] msg[i] == pv[base + i],
    ensures
        perm_input(msg, 1).len() == 25,
        absorbs(
            permute(perm_input(msg, 0)),
            perm_input(msg, 1),
            |i: int| second_block_byte(pv, base, msg.len() as int, i),
        ),
{
    let len = msg.len() as int;
    let e = absorbed(msg, 1);
    assert(e == permute(block_state(msg, 0)));
    lemma_first_block(msg, pv, base);
    lemma_rounds_len(block_state(msg, 0), 24);
    assert(e.len() == 25);
    let src = msg.subrange(136, len);
    lemma_padded_bytes(e, src);
    let t = pad(absorb(e, 0, src), len - 136);
    assert(perm_input(msg, 1) == t);
    assert(perm_input(msg, 0) == block_state(msg, 0));
    let f = |i: int| second_block_byte(pv, base, len, i);
    assert forall|i: int| 0 <= i < 136 implies (#[trigger] state_bytes(t)[i]) ^ state_bytes(e)[i]
        == f(i) by {
        assert(state_bytes(t)[i] == padded_byte(state_bytes(e), src, i));
        lemma_second_byte(state_bytes(e), msg, pv, base, i);
    }
}

/// What a padded second block changes of the bytes below it.
proof fn lemma_second_byte(b: Seq<u8>, msg: Seq<u8>, pv: Seq<int>, base: int, i: int)
    requires
        136 <= msg.len() < 272,
        0 <= base,
        base + msg.len() <= pv.len(),
        forall|i: int| 0 <= i < msg.len() ==> #[trigger] msg[i] == pv[base + i],
        0 <= i < 136,
    ensures
        padded_byte(b, msg.subrange(136, msg.len() as int), i) ^ b[i] == second_block_byte(
            pv,
            base,
            msg.len() as int,
            i,
        ),
{
    let len = msg.len() as int;
    let src = msg.subrange(136, len);
    let x = b[i];
    lemma_xor_bytes(x, 1);
    lemma_xor_bytes(x, 0x80);
    if i < len - 136 {
        lemma_xor_bytes(x, src[i]);
        assert(src[i] == msg[136 + i]);
        assert(msg[136 + i] == pv[base + (136 + i)]);
    }
}

/// A window of the sponge system between two rows of states.
pub open spec fn sponge_window(
    s: Seq<u64>,
    live_c: bool,
    r: int,
    t: Seq<u64>,
    live_n: bool,
    rn: int,
    pv: Seq<int>,
    first: bool,
    trans: bool,
) -> WindowVals {
    WindowVals {
        curr: sponge_row(state_bits(s), live_c, r),
        next: sponge_row(state_bits(t), live_n, rn),
        pv,
        first: fbool(first),
        trans: fbool(trans),
    }
}

/// A window satisfies the sponge system where each of its selectors sees what it asks for.
pub proof fn lemma_sponge_window(
    air: Keccak256SpongeAir,
    s: Seq<u64>,
    live_c: bool,
    r: int,
    t: Seq<u64>,
    live_n: bool,
    rn: int,
    pv: Seq<int>,
    first: bool,
    trans: bool,
)
    requires
        s.len() == 25,
        t.len() == 25,
        0 <= r < 24,
        0 <= rn < 24,
        live_c || r == 0,
        live_n || rn == 0,
        air.msg_len <= 272,
        pv.len() == air.msg_len + 32,
        trans && live_c && live_n && !(r == 23 && rn == 0) ==> t == round(s, RC@[r]) && rn == r + 1,
        trans && live_c && !live_n ==> t == round(s, RC@[r]) && r == 23,
        trans && !live_c ==> s == t && !live_n,
        air.msg_len > 136 && trans && live_c && live_n && r == 23 && rn == 0 ==> absorbs(
            round(s, RC@[r]),
            t,
            |i: int| second_block_byte(pv, 0, air.msg_len as int, i),
        ),
        first ==> live_c && r == 0 && starts_with(s, first_block(pv, 0, air.msg_len as int)),
        !live_c ==> forall|i: int|
            0 <= i < 32 ==> #[trigger] pv[air.msg_len + i] == state_bytes(s)[i],
    ensures
        all_zero(
            air.constraints(sponge_window(s, live_c, r, t, live_n, rn, pv, first, trans)),
        ),
{
    let w = sponge_window(s, live_c, r, t, live_n, rn, pv, first, trans);
    let len = air.msg_len as int;
    lemma_row_parts(s, live_c, r);
    lemma_row_parts(t, live_n, rn);
    let a = bit_vals(state_bits(s));
    let b = bit_vals(state_bits(t));
    lemma_eq_bits(r, 23);
    lemma_eq_bits(rn, 0);
    lemma_round_value(r);
    lemma_round_value(rn);
    lemma_rc_select(r);
    let sel = sponge_selectors(w);
    let wrap = r == 23 && rn == 0;
    assert(sel.wrap == fbool(wrap));
    assert(sel.both_live == fbool(live_c && live_n));
    assert(sel.cont == fbool(live_c && live_n && !wrap));
    assert(sel.to_final == fbool(live_c && !live_n));
    assert(sel.idle == fbool(!live_c));
    let cont = trans && live_c && live_n && !wrap;
    let fin = trans && live_c && !live_n;
    let hold = trans && !live_c;
    let second = trans && live_c && live_n && wrap;
    assert(fmul(w.trans, sel.cont) == fbool(cont));
    assert(fmul(w.trans, sel.to_final) == fbool(fin));
    assert(fmul(w.trans, sel.idle) == fbool(hold));
    assert(fmul(fmul(w.trans, sel.both_live), sel.wrap) == fbool(second));
    lemma_bits_zero(w.curr);
    lemma_counter_zero(live_c, r);
    lemma_step_zero(s, t, r, rn, cont, fin);
    lemma_hold_zero(w.curr, w.next, hold);
    if len > 136 {
        lemma_second_zero(s, t, RC@[r], pv, 0, len, rn, second);
    }
    lemma_start_zero(s, first_block(pv, 0, len), live_c, r, first);
    let digest = pv.subrange(len, len + 32);
    assert forall|i: int| !live_c && 0 <= i < 32 implies #[trigger] digest[i] == state_bytes(s)[0
        + i] by {
        assert(digest[i] == pv[len + i]);
    }
    lemma_bytes_zero(s, 0, digest, !live_c);
    let c1 = bit_constraints(w.curr);
    let c2 = round_counter_constraints(fbool(live_c), round_bits(r));
    let c3 = step_constraints(a, b, rc_vals(RC@[r]), fbool(cont), fbool(fin), r, rn);
    let c4 = hold_constraints(w.curr, w.next, fbool(hold));
    let c5 = if len > 136 {
        second_block_constraints(a, b, rc_vals(RC@[r]), pv, 0, len, rn, fbool(second))
    } else {
        Seq::empty()
    };
    let c6 = start_constraints(a, first_block(pv, 0, len), fbool(live_c), r, fbool(first));
    let c7 = bytes_constraints(a, 0, digest, fbool(!live_c));
    assert(all_zero(c5));
    lemma_all_zero_concat(c1, c2);
    lemma_all_zero_concat(c1 + c2, c3);
    lemma_all_zero_concat(c1 + c2 + c3, c4);
    lemma_all_zero_concat(c1 + c2 + c3 + c4, c5);
    lemma_all_zero_concat(c1 + c2 + c3 + c4 + c5, c6);
    lemma_all_zero_concat(c1 + c2 + c3 + c4 + c5 + c6, c7);
    assert(air.constraints(w) == c1 + c2 + c3 + c4 + c5 + c6 + c7);
}

/// The states of the rows of a message of one or two blocks step by the round of each row.
pub proof fn lemma_states(msg: Seq<u8>, i: int)
    requires
        msg.len() < 272,
        perm_input(msg, 0).len() == 25,
        msg.len() >= 136 ==> perm_input(msg, 1).len() == 25,
        0 <= i < 24 * (msg.len() as int / 136 + 1),
    ensures
        witness_state(msg, i).len() == 25,
        final_state(msg).len() == 25,
        i % 24 != 23 ==> witness_state(msg, i + 1) == round(witness_state(msg, i), RC@[i % 24])
            && (i + 1) % 24 == i % 24 + 1,
        i == 23 ==> round(witness_state(msg, i), RC@[23]) == permute(perm_input(msg, 0)),
        i == 23 ==> witness_state(msg, 24) == perm_input(msg, 1),
        i == 24 * (msg.len() as int / 136 + 1) - 1 ==> i % 24 == 23 && round(
            witness_state(msg, i),
            RC@[23],
        ) == final_state(msg),
{
    let k: nat = (i / 24) as nat;
    let r: nat = (i % 24) as nat;
    let q: nat = msg.len() / 136;
    assert(q == 0 || q == 1);
    assert(k == 0 || k == 1);
    assert(perm_input(msg, q) == last_block_state(msg));
    lemma_rounds_len(perm_input(msg, k), r);
    lemma_rounds_len(perm_input(msg, q), 24);
    let a = perm_input(msg, k);
    assert(rounds(a, r + 1) == round(rounds(a, r), RC@[r as int]));
    if r != 23 {
        assert((i + 1) / 24 == i / 24);
    }
    if i == 23 {
        assert(rounds(perm_input(msg, 1), 0) == perm_input(msg, 1));
    }
}

/// The trace of a message of fewer than two full blocks satisfies the sponge system on every
/// row, with the message and its digest as publics.
pub proof fn lemma_sponge_trace_satisfies(
    air: Keccak256SpongeAir,
    m: RowMajorMatrix,
    msg: Seq<u8>,
    i: int,
)
    requires
        air.msg_len == msg.len(),
        msg.len() < 272,
        is_sponge_trace(m, msg),
        0 <= i < m.rows(),
    ensures
        all_zero(air.constraints(m.window_vals(i, sponge_publics(msg, keccak256_spec(msg))))),
{
    reveal(keccak256_spec);
    let digest = keccak256_spec(msg);
    let pv = sponge_publics(msg, digest);
    let n = 24 * (msg.len() as int / 136 + 1);
    lemma_sponge_rows(msg.len());
    lemma_first_block(msg, pv, 0);
    if msg.len() >= 136 {
        lemma_second_block(msg, pv, 0);
        lemma_rounds_len(perm_input(msg, 1), 24);
    }
    lemma_rounds_len(perm_input(msg, 0), 24);
    let j = if i + 1 == m.rows() {
        0
    } else {
        i + 1
    };
    let live_c = i < n;
    let live_n = j < n;
    let s = if live_c {
        witness_state(msg, i)
    } else {
        final_state(msg)
    };
    let t = if live_n {
        witness_state(msg, j)
    } else {
        final_state(msg)
    };
    let r = if live_c {
        i % 24
    } else {
        0
    };
    let rn = if live_n {
        j % 24
    } else {
        0
    };
    lemma_states(
        msg,
        if live_c {
            i
        } else {
            0
        },
    );
    if live_n {
        lemma_states(msg, j);
    }
    let first = i == 0;
    let trans = i + 1 != m.rows();
    let w = sponge_window(s, live_c, r, t, live_n, rn, pv, first, trans);
    assert(m.row(i) == sponge_trace_row(msg, i));
    assert(m.row(j) == sponge_trace_row(msg, j));
    assert(m.window_vals(i, pv) =~= w);
    lemma_sponge_window(air, s, live_c, r, t, live_n, rn, pv, first, trans);
}

} // verus!
