//! A trace of bits that satisfies the sponge system is the sponge of its message.
use vstd::prelude::*;

use crate::constraint::{all_zero, bit_constraints, lemma_all_zero_concat, WindowVals};
use crate::field::{fbool, fmul, fsub};
use crate::keccak256_air::{sponge_publics, sponge_selectors, Keccak256SpongeAir};
use crate::keccak_f_air::{
    bit_vals, lemma_cell, lemma_round_cells, lemma_round_constraints_exact, rc_vals, round_cells,
    round_constraints,
};
use crate::keccak_f_native::{
    keccak256_spec, lemma_state_bits_injective, perm_input, round, rounds, state_bits, state_bytes,
    witness_state, RC,
};
use crate::sponge_gadgets::{
    bytes_constraints, first_block, hold_constraints, rc_select, round_counter_constraints,
    second_block_byte, second_block_constraints, start_constraints, step_constraints, xor_byte,
    zero_constraints,
};
use crate::sponge_laws::{
    absorbs, lemma_byte_bits, lemma_eq_bits, lemma_first_block, lemma_packed_byte, lemma_rc_select,
    lemma_round_sum, lemma_round_value, lemma_row_parts, lemma_second_block, lemma_states,
    lemma_xor_byte, lemma_zero_lane, round_bits, sponge_window, starts_with,
};

verus! {

/// States with the same rate bytes and the same capacity bits are the same.
pub proof fn lemma_same_state(s: Seq<u64>, t: Seq<u64>)
    requires
        s.len() == 25,
        t.len() == 25,
        forall|i: int| 0 <= i < 136 ==> #[trigger] state_bytes(s)[i] == state_bytes(t)[i],
        forall|i: int| 1088 <= i < 1600 ==> #[trigger] state_bits(s)[i] == state_bits(t)[i],
    ensures
        s == t,
{
    assert forall|i: int| 0 <= i < 1600 implies #[trigger] state_bits(s)[i] == state_bits(t)[i] by {
        if i < 1088 {
            let l = i / 64;
            let b = i % 64;
            let j = b / 8;
            let k = b % 8;
            assert(i == l * 64 + b && b == 8 * j + k);
            lemma_byte_bits(s[l], j, k);
            lemma_byte_bits(t[l], j, k);
            let n = 8 * l + j;
            assert(n / 8 == l && n % 8 == j);
            assert(state_bytes(s)[n] == state_bytes(t)[n]);
        }
    }
    assert(state_bits(s) =~= state_bits(t));
    lemma_state_bits_injective(s, t);
}

/// A row that passes the start constraints is the starting row.
pub proof fn lemma_start_exact(s: Seq<u64>, t: Seq<u64>, block: Seq<int>, live: bool, r: int)
    requires
        s.len() == 25,
        t.len() == 25,
        block.len() == 136,
        starts_with(t, block),
        0 <= r < 32,
        all_zero(start_constraints(bit_vals(state_bits(s)), block, fbool(live), r, 1)),
    ensures
        s == t,
        live,
        r == 0,
{
    reveal(start_constraints);
    let a = bit_vals(state_bits(s));
    let x = bytes_constraints(a, 0, block, 1);
    let cap = a.subrange(1088, 1600);
    let y = zero_constraints(cap, 1);
    let z = seq![fmul(1, fsub(fbool(live), 1)), fmul(1, r)];
    lemma_all_zero_concat(x, y);
    lemma_all_zero_concat(x + y, z);
    assert(z[0] == 0 && z[1] == 0);
    assert forall|i: int| 0 <= i < 136 implies #[trigger] state_bytes(s)[i] == state_bytes(t)[i] by {
        assert(x[i] == 0);
        lemma_packed_byte(s, 0 + i);
        assert(block[i] == state_bytes(t)[i]);
    }
    assert forall|i: int| 1088 <= i < 1600 implies #[trigger] state_bits(s)[i] == state_bits(t)[i] by {
        let l = i / 64;
        let b = i % 64;
        assert(i == l * 64 + b);
        assert(y[i - 1088] == 0);
        assert(cap[i - 1088] == fbool(state_bits(s)[i]));
        lemma_zero_lane(b);
        assert(t[l] == 0);
    }
    lemma_same_state(s, t);
}

/// A row pair that passes the round constraints is a step.
pub proof fn lemma_step_exact(s: Seq<u64>, t: Seq<u64>, r: int, rn: int, cont: bool, fin: bool)
    requires
        s.len() == 25,
        t.len() == 25,
        0 <= r < 24,
        0 <= rn < 32,
        all_zero(
            step_constraints(
                bit_vals(state_bits(s)),
                bit_vals(state_bits(t)),
                rc_vals(RC@[r]),
                fbool(cont),
                fbool(fin),
                r,
                rn,
            ),
        ),
    ensures
        cont ==> t == round(s, RC@[r]) && rn == r + 1,
        fin ==> t == round(s, RC@[r]) && r == 23,
{
    reveal(step_constraints);
    let a = bit_vals(state_bits(s));
    let b = bit_vals(state_bits(t));
    let rc = rc_vals(RC@[r]);
    let c1 = round_constraints(a, b, rc, fbool(cont));
    let c2 = seq![fmul(fbool(cont), fsub(fsub(rn, r), 1))];
    let c3 = round_constraints(a, b, rc, fbool(fin));
    let c4 = seq![fmul(fbool(fin), fsub(r, 23))];
    lemma_all_zero_concat(c1, c2);
    lemma_all_zero_concat(c1 + c2, c3);
    lemma_all_zero_concat(c1 + c2 + c3, c4);
    lemma_round_constraints_exact(s, t, RC@[r]);
    assert(c2[0] == 0 && c4[0] == 0);
}

/// A row pair that passes the second-block constraints absorbs the block.
pub proof fn lemma_second_exact(
    s: Seq<u64>,
    t: Seq<u64>,
    u: Seq<u64>,
    rc: u64,
    pv: Seq<int>,
    base: int,
    len: int,
    rn: int,
)
    requires
        s.len() == 25,
        t.len() == 25,
        u.len() == 25,
        absorbs(round(s, rc), u, |i: int| second_block_byte(pv, base, len, i)),
        all_zero(
            second_block_constraints(
                bit_vals(state_bits(s)),
                bit_vals(state_bits(t)),
                rc_vals(rc),
                pv,
                base,
                len,
                rn,
                1,
            ),
        ),
    ensures
        t == u,
{
    reveal(second_block_constraints);
    reveal(round);
    let a = bit_vals(state_bits(s));
    let b = bit_vals(state_bits(t));
    let e = round(s, rc);
    let expected = round_cells(a, rc_vals(rc));
    lemma_round_cells(s, rc);
    assert(e.len() == 25);
    let x = Seq::new(
        136,
        |i: int| fmul(1, fsub(xor_byte(b, expected, i), second_block_byte(pv, base, len, i))),
    );
    let y = Seq::new(512, |i: int| fmul(1, fsub(b[1088 + i], expected[1088 + i])));
    let z = seq![fmul(1, rn)];
    lemma_all_zero_concat(x, y);
    lemma_all_zero_concat(x + y, z);
    let f = |i: int| second_block_byte(pv, base, len, i);
    assert forall|i: int| 0 <= i < 136 implies #[trigger] state_bytes(t)[i] == state_bytes(u)[i] by {
        assert(x[i] == 0);
        lemma_xor_byte(t, e, i);
        let p = state_bytes(t)[i];
        let q = state_bytes(e)[i];
        let v = state_bytes(u)[i];
        assert(v ^ q == f(i));
        assert(p ^ q == v ^ q);
        lemma_xor_cancel(p, v, q);
    }
    assert forall|i: int| 1088 <= i < 1600 implies #[trigger] state_bits(t)[i] == state_bits(u)[i] by {
        assert(y[i - 1088] == 0);
        let l = i / 64;
        let k = i % 64;
        assert(i == l * 64 + k);
        lemma_cell(t, l, k);
        lemma_cell(e, l, k);
        lemma_cell(u, l, k);
        assert(u[l] == e[l]);
        assert(b[i] == fbool(state_bits(t)[i]));
        assert(expected[i] == bit_vals(state_bits(e))[i]);
    }
    lemma_same_state(t, u);
}

proof fn lemma_xor_cancel(p: u8, v: u8, q: u8)
    requires
        p ^ q == v ^ q,
    ensures
        p == v,
{
    assert(p == v) by (bit_vector)
        requires
            p ^ q == v ^ q,
    ;
}

/// What a satisfied window says.
proof fn lemma_window_exact(
    air: Keccak256SpongeAir,
    s: Seq<u64>,
    live_c: bool,
    r: int,
    t: Seq<u64>,
    live_n: bool,
    rn: int,
    pv: Seq<int>,
    first: bool,
    trans: bool,
)
    requires
        s.len() == 25,
        t.len() == 25,
        0 <= r < 32,
        0 <= rn < 32,
        live_c || r == 0,
        live_n || rn == 0,
        air.msg_len <= 272,
        pv.len() == air.msg_len + 32,
        forall|i: int| 0 <= i < pv.len() ==> 0 <= #[trigger] pv[i] < 256,
        all_zero(
            air.constraints(sponge_window(s, live_c, r, t, live_n, rn, pv, first, trans)),
        ),
    ensures
        r < 24,
        trans && live_c && live_n && !(r == 23 && rn == 0) ==> t == round(s, RC@[r]) && rn == r + 1,
        trans && live_c && !live_n ==> t == round(s, RC@[r]) && r == 23,
        air.msg_len > 136 && trans && live_c && live_n && r == 23 && rn == 0 ==> all_zero(
            second_block_constraints(
                bit_vals(state_bits(s)),
                bit_vals(state_bits(t)),
                rc_vals(RC@[r]),
                pv,
                0,
                air.msg_len as int,
                rn,
                1,
            ),
        ),
        first ==> all_zero(
            start_constraints(
                bit_vals(state_bits(s)),
                first_block(pv, 0, air.msg_len as int),
                fbool(live_c),
                r,
                1,
            ),
        ),
        !live_c ==> forall|i: int|
            0 <= i < 32 ==> #[trigger] state_bytes(s)[i] == pv[air.msg_len + i],
{
    let w = sponge_window(s, live_c, r, t, live_n, rn, pv, first, trans);
    let len = air.msg_len as int;
    lemma_row_parts(s, live_c, r);
    lemma_row_parts(t, live_n, rn);
    let a = bit_vals(state_bits(s));
    let b = bit_vals(state_bits(t));
    let rb = round_bits(r);
    let rc = rc_select(rb);
    lemma_eq_bits(r, 23);
    lemma_eq_bits(rn, 0);
    lemma_round_value(r);
    lemma_round_value(rn);
    let sel = sponge_selectors(w);
    let wrap = r == 23 && rn == 0;
    let cont = trans && live_c && live_n && !wrap;
    let fin = trans && live_c && !live_n;
    let hold = trans && !live_c;
    let second = trans && live_c && live_n && wrap;
    assert(sel.wrap == fbool(wrap));
    assert(sel.both_live == fbool(live_c && live_n));
    assert(fmul(w.trans, sel.cont) == fbool(cont));
    assert(fmul(w.trans, sel.to_final) == fbool(fin));
    assert(fmul(w.trans, sel.idle) == fbool(hold));
    assert(fmul(fmul(w.trans, sel.both_live), sel.wrap) == fbool(second));
    assert(sel.idle == fbool(!live_c));
    let digest = pv.subrange(len, len + 32);
    let c1 = bit_constraints(w.curr);
    let c2 = round_counter_constraints(fbool(live_c), rb);
    let c3 = step_constraints(a, b, rc, fbool(cont), fbool(fin), r, rn);
    let c4 = hold_constraints(w.curr, w.next, fbool(hold));
    let c5 = if len > 136 {
        second_block_constraints(a, b, rc, pv, 0, len, rn, fbool(second))
    } else {
        Seq::empty()
    };
    let c6 = start_constraints(a, first_block(pv, 0, len), fbool(live_c), r, fbool(first));
    let c7 = bytes_constraints(a, 0, digest, fbool(!live_c));
    assert(air.constraints(w) == c1 + c2 + c3 + c4 + c5 + c6 + c7);
    lemma_all_zero_concat(c1, c2);
    lemma_all_zero_concat(c1 + c2, c3);
    lemma_all_zero_concat(c1 + c2 + c3, c4);
    lemma_all_zero_concat(c1 + c2 + c3 + c4, c5);
    lemma_all_zero_concat(c1 + c2 + c3 + c4 + c5, c6);
    lemma_all_zero_concat(c1 + c2 + c3 + c4 + c5 + c6, c7);
    assert(r < 24) by {
        lemma_round_sum(r, 24);
        assert(c2[0] == 0);
    }
    lemma_rc_select(r);
    lemma_step_exact(s, t, r, rn, cont, fin);
    if !live_c {
        assert forall|i: int| 0 <= i < 32 implies #[trigger] state_bytes(s)[i] == pv[len + i] by {
            lemma_packed_byte(s, 0 + i);
            assert(c7[i] == 0);
            assert(digest[i] == pv[len + i]);
        }
    }
}

/// A row of a sponge trace whose cells are bits.
pub struct SpongeRow {
    pub state: Seq<u64>,
    pub live: bool,
    pub round: int,
}

/// The row pair that starts at row `i`; the last row is followed by the first.
pub open spec fn rows_window(rows: Seq<SpongeRow>, pv: Seq<int>, i: int) -> WindowVals {
    let c = rows[i];
    let n = rows[if i + 1 == rows.len() {
        0
    } else {
        i + 1
    }];
    sponge_window(
        c.state,
        c.live,
        c.round,
        n.state,
        n.live,
        n.round,
        pv,
        i == 0,
        i + 1 != rows.len(),
    )
}

/// The rows satisfy the system, and go idle right after the last round of the last block.
pub open spec fn sponge_accepts(
    air: Keccak256SpongeAir,
    rows: Seq<SpongeRow>,
    msg: Seq<u8>,
    digest: Seq<u8>,
) -> bool {
    let n = 24 * (msg.len() as int / 136 + 1);
    &&& air.msg_len == msg.len()
    &&& digest.len() == 32
    &&& rows.len() > n
    &&& forall|i: int|
        0 <= i < rows.len() ==> (#[trigger] rows[i]).state.len() == 25 && 0 <= rows[i].round < 32
            && (rows[i].live || rows[i].round == 0)
    &&& forall|i: int| 0 <= i < n ==> (#[trigger] rows[i]).live
    &&& !rows[n].live
    &&& forall|i: int|
        0 <= i < rows.len() ==> all_zero(
            air.constraints(#[trigger] rows_window(rows, sponge_publics(msg, digest), i)),
        )
}

/// The live rows of an accepted trace are the sponge of the message.
proof fn lemma_live_rows(
    air: Keccak256SpongeAir,
    rows: Seq<SpongeRow>,
    msg: Seq<u8>,
    digest: Seq<u8>,
    i: int,
)
    requires
        sponge_accepts(air, rows, msg, digest),
        msg.len() != 136,
        msg.len() < 272,
        0 <= i < 24 * (msg.len() as int / 136 + 1),
    ensures
        rows[i].state == witness_state(msg, i),
        rows[i].round == i % 24,
    decreases i,
{
    let pv = sponge_publics(msg, digest);
    let len = msg.len() as int;
    lemma_first_block(msg, pv, 0);
    if len > 136 {
        lemma_second_block(msg, pv, 0);
    }
    if i == 0 {
        let c = rows[0];
        let t = rows[1];
        assert(all_zero(air.constraints(rows_window(rows, pv, 0))));
        lemma_window_exact(
            air,
            c.state,
            c.live,
            c.round,
            t.state,
            t.live,
            t.round,
            pv,
            true,
            true,
        );
        lemma_start_exact(
            c.state,
            perm_input(msg, 0),
            first_block(pv, 0, len),
            c.live,
            c.round,
        );
        assert(rounds(perm_input(msg, 0), 0) == perm_input(msg, 0));
    } else {
        let k = i - 1;
        lemma_live_rows(air, rows, msg, digest, k);
        lemma_states(msg, k);
        let c = rows[k];
        let t = rows[i];
        assert(all_zero(air.constraints(rows_window(rows, pv, k))));
        lemma_window_exact(
            air,
            c.state,
            c.live,
            c.round,
            t.state,
            t.live,
            t.round,
            pv,
            k == 0,
            true,
        );
        if k % 24 == 23 {
            assert(k == 23);
            assert(all_zero(air.constraints(rows_window(rows, pv, i))));
            let u = rows[if i + 1 == rows.len() {
                0
            } else {
                i + 1
            }];
            lemma_window_exact(
                air,
                t.state,
                t.live,
                t.round,
                u.state,
                u.live,
                u.round,
                pv,
                false,
                i + 1 != rows.len(),
            );
            lemma_second_exact(
                c.state,
                t.state,
                perm_input(msg, 1),
                RC@[23],
                pv,
                0,
                len,
                t.round,
            );
        }
    }
}

/// A trace of bits that satisfies the system, and goes idle right after the last round of the
/// last block, has the digest of its message among its publics.
pub proof fn lemma_sponge_digest_exact(
    air: Keccak256SpongeAir,
    rows: Seq<SpongeRow>,
    msg: Seq<u8>,
    digest: Seq<u8>,
)
    requires
        sponge_accepts(air, rows, msg, digest),
        msg.len() != 136,
        msg.len() < 272,
    ensures
        digest == keccak256_spec(msg),
{
    reveal(keccak256_spec);
    let pv = sponge_publics(msg, digest);
    let n = 24 * (msg.len() as int / 136 + 1);
    let k = n - 1;
    lemma_live_rows(air, rows, msg, digest, k);
    lemma_first_block(msg, pv, 0);
    if msg.len() > 136 {
        lemma_second_block(msg, pv, 0);
    }
    lemma_states(msg, k);
    let c = rows[k];
    let t = rows[n];
    assert(all_zero(air.constraints(rows_window(rows, pv, k))));
    lemma_window_exact(air, c.state, c.live, c.round, t.state, t.live, t.round, pv, k == 0, true);
    let last = n + 1 == rows.len();
    let u = rows[if last {
        0
    } else {
        n + 1
    }];
    assert(all_zero(air.constraints(rows_window(rows, pv, n))));
    lemma_window_exact(air, t.state, t.live, t.round, u.state, u.live, u.round, pv, false, !last);
    let d = keccak256_spec(msg);
    assert forall|i: int| 0 <= i < 32 implies #[trigger] digest[i] == d[i] by {
        assert(state_bytes(t.state)[i] == pv[msg.len() + i]);
        assert(pv[msg.len() + i] == digest[i]);
    }
    assert(digest =~= d);
}

} // verus!
