//! The Keccak round is a permutation of the states, and its constant acts on one lane.
use vstd::prelude::*;

use crate::keccak_f_native::{
    chi, lemma_rounds_len, permute, pi_source, rho_pi, rotl, round, rounds, theta, theta_c,
    theta_d, RC, RHO,
};

verus! {

/// Rotation to the left by `n` bits, where a full turn is none.
spec fn turn(x: u64, n: u32) -> u64 {
    if n == 64 {
        x
    } else {
        rotl(x, n)
    }
}

/// A doubling of the rotations that column mixing is squared through.
spec fn turns(n: u32) -> bool {
    n == 1 || n == 2 || n == 4 || n == 8 || n == 16 || n == 32
}

#[verifier::rlimit(40)]
proof fn lemma_rotl_xor(x: u64, y: u64, n: u32)
    requires
        n < 64,
    ensures
        rotl(x ^ y, n) == rotl(x, n) ^ rotl(y, n),
{
    if n > 0 {
        let m: u32 = (64 - n) as u32;
        assert(((x ^ y) << n) | ((x ^ y) >> m) == ((x << n) | (x >> m)) ^ ((y << n) | (y >> m)))
            by (bit_vector)
            requires
                0 < n < 64,
                m == 64 - n,
        ;
    }
}

proof fn lemma_rotl_twice(x: u64, n: u32)
    requires
        turns(n),
    ensures
        rotl(rotl(x, n), n) == turn(x, (2 * n) as u32),
{
    let m: u32 = (64 - n) as u32;
    let y: u64 = (x << n) | (x >> m);
    let k: u32 = (2 * n) as u32;
    if n == 32 {
        assert((((x << 32u32) | (x >> 32u32)) << 32u32) | (((x << 32u32) | (x >> 32u32)) >> 32u32)
            == x) by (bit_vector);
    } else {
        let h: u32 = (64 - k) as u32;
        assert((y << n) | (y >> m) == (x << k) | (x >> h)) by (bit_vector)
            requires
                n == 1 || n == 2 || n == 4 || n == 8 || n == 16,
                m == 64 - n,
                k == 2 * n,
                h == 64 - k,
                y == (x << n) | (x >> m),
        ;
    }
}

proof fn lemma_rotl_injective(x: u64, y: u64, n: u32)
    requires
        n < 64,
        rotl(x, n) == rotl(y, n),
    ensures
        x == y,
{
    if n > 0 {
        let m: u32 = (64 - n) as u32;
        assert(x == y) by (bit_vector)
            requires
                0 < n < 64,
                m == 64 - n,
                (x << n) | (x >> m) == (y << n) | (y >> m),
        ;
    }
}

/// Lane `x` cancels with its two neighbours.
spec fn cancels_at(e: Seq<u64>, s: int, n: u32, x: int) -> bool {
    e[x] ^ e[(x + 5 - s) % 5] ^ turn(e[(x + s) % 5], n) == 0
}

/// Each of five lanes cancels with the lane `s` places before it and the one `s` places after
/// it, the latter turned by `n`.
#[verifier::opaque]
spec fn cancels(e: Seq<u64>, s: int, n: u32) -> bool {
    forall|x: int| 0 <= x < 5 ==> #[trigger] cancels_at(e, s, n, x)
}

proof fn lemma_square(e: Seq<u64>, s: int, n: u32)
    requires
        1 <= s <= 4,
        turns(n),
        cancels(e, s, n),
    ensures
        cancels(e, (2 * s) % 5, (2 * n) as u32),
{
    reveal(cancels);
    let t = (2 * s) % 5;
    assert forall|x: int| 0 <= x < 5 implies #[trigger] cancels_at(e, t, (2 * n) as u32, x) by {
        let l = (x + 5 - s) % 5;
        let r = (x + s) % 5;
        assert((l + 5 - s) % 5 == (x + 5 - t) % 5);
        assert((l + s) % 5 == x);
        assert((r + s) % 5 == (x + t) % 5);
        assert((r + 5 - s) % 5 == x);
        let a = e[x];
        let b = e[l];
        let c = e[r];
        let d = e[(x + 5 - t) % 5];
        let f = e[(x + t) % 5];
        assert(cancels_at(e, s, n, x) && cancels_at(e, s, n, l) && cancels_at(e, s, n, r));
        assert(a ^ b ^ rotl(c, n) == 0);
        assert(b ^ d ^ rotl(a, n) == 0);
        assert(c ^ a ^ rotl(f, n) == 0);
        let ra = rotl(a, n);
        let rf = rotl(f, n);
        let rc = rotl(c, n);
        let rrf = rotl(rf, n);
        lemma_rotl_xor(c, a, n);
        lemma_rotl_xor(c ^ a, rf, n);
        assert(rotl(0, n) == 0) by {
            let m: u32 = (64 - n) as u32;
            assert((0u64 << n) | (0u64 >> m) == 0) by (bit_vector);
        }
        assert(rc ^ ra ^ rrf == 0);
        assert(a ^ d ^ rrf == 0) by (bit_vector)
            requires
                a ^ b ^ rc == 0,
                b ^ d ^ ra == 0,
                rc ^ ra ^ rrf == 0,
        ;
        lemma_rotl_twice(f, n);
    }
}

/// Five lanes that cancel in the column-mixing pattern are zero.
proof fn lemma_cancels_zero(e: Seq<u64>)
    requires
        e.len() == 5,
        cancels(e, 1, 1),
    ensures
        forall|x: int| 0 <= x < 5 ==> #[trigger] e[x] == 0,
{
    lemma_square(e, 1, 1);
    lemma_square(e, 2, 2);
    lemma_square(e, 4, 4);
    lemma_square(e, 3, 8);
    lemma_square(e, 1, 16);
    lemma_square(e, 2, 32);
    lemma_ring_zero(e);
}

/// Five lanes of which any three neighbours cancel are zero.
proof fn lemma_ring_zero(e: Seq<u64>)
    requires
        e.len() == 5,
        cancels(e, 4, 64),
    ensures
        forall|x: int| 0 <= x < 5 ==> #[trigger] e[x] == 0,
{
    reveal(cancels);
    let a = e[0];
    let b = e[1];
    let c = e[2];
    let d = e[3];
    let f = e[4];
    assert(cancels_at(e, 4, 64, 0) && cancels_at(e, 4, 64, 1) && cancels_at(e, 4, 64, 2));
    assert(cancels_at(e, 4, 64, 3) && cancels_at(e, 4, 64, 4));
    assert(a ^ b ^ f == 0);
    assert(b ^ c ^ a == 0);
    assert(c ^ d ^ b == 0);
    assert(d ^ f ^ c == 0);
    assert(f ^ a ^ d == 0);
    assert(a == 0 && b == 0 && c == 0 && d == 0 && f == 0) by (bit_vector)
        requires
            a ^ b ^ f == 0,
            b ^ c ^ a == 0,
            c ^ d ^ b == 0,
            d ^ f ^ c == 0,
            f ^ a ^ d == 0,
    ;
}

/// Mixing adds each column's mask to its parity.
proof fn lemma_mixed_parity(a: Seq<u64>, x: int)
    requires
        a.len() == 25,
        0 <= x < 5,
    ensures
        theta_c(theta(a), x) == theta_c(a, x) ^ theta_d(a, x),
{
    let t = theta(a);
    let d = theta_d(a, x);
    assert((x + 5) % 5 == x && (x + 10) % 5 == x && (x + 15) % 5 == x && (x + 20) % 5 == x);
    let (p, q, r, s, u) = (a[x], a[x + 5], a[x + 10], a[x + 15], a[x + 20]);
    assert(t[x] == p ^ d && t[x + 5] == q ^ d && t[x + 10] == r ^ d && t[x + 15] == s ^ d && t[x
        + 20] == u ^ d);
    assert((p ^ d) ^ (q ^ d) ^ (r ^ d) ^ (s ^ d) ^ (u ^ d) == (p ^ q ^ r ^ s ^ u) ^ d)
        by (bit_vector);
}

/// Column mixing is injective.
proof fn lemma_theta_injective(a: Seq<u64>, b: Seq<u64>)
    requires
        a.len() == 25,
        b.len() == 25,
        theta(a) == theta(b),
    ensures
        a == b,
{
    reveal(cancels);
    let e = Seq::new(5, |x: int| theta_c(a, x) ^ theta_c(b, x));
    assert forall|x: int| 0 <= x < 5 implies #[trigger] cancels_at(e, 1, 1, x) by {
        lemma_mixed_parity(a, x);
        lemma_mixed_parity(b, x);
        let (p, q) = (theta_c(a, x), theta_c(b, x));
        let (pl, ql) = (theta_c(a, (x + 4) % 5), theta_c(b, (x + 4) % 5));
        let (pr, qr) = (theta_c(a, (x + 1) % 5), theta_c(b, (x + 1) % 5));
        lemma_rotl_xor(pr, qr, 1);
        let (u, v) = (rotl(pr, 1), rotl(qr, 1));
        assert((p ^ q) ^ (pl ^ ql) ^ (u ^ v) == 0) by (bit_vector)
            requires
                p ^ (pl ^ u) == q ^ (ql ^ v),
        ;
    }
    lemma_cancels_zero(e);
    assert forall|x: int| 0 <= x < 5 implies #[trigger] theta_c(a, x) == theta_c(b, x) by {
        assert(e[x] == 0);
        lemma_xor_zero(theta_c(a, x), theta_c(b, x));
    }
    assert forall|i: int| 0 <= i < 25 implies #[trigger] a[i] == b[i] by {
        assert(theta(a)[i] == theta(b)[i]);
        let x = i % 5;
        assert(theta_c(a, (x + 4) % 5) == theta_c(b, (x + 4) % 5));
        assert(theta_c(a, (x + 1) % 5) == theta_c(b, (x + 1) % 5));
        assert(theta_d(a, x) == theta_d(b, x));
        assert(theta(a)[i] == a[i] ^ theta_d(a, x));
        assert(theta(b)[i] == b[i] ^ theta_d(b, x));
        lemma_xor_cancel(a[i], b[i], theta_d(a, x));
    }
    assert(a =~= b);
}

proof fn lemma_xor_zero(x: u64, y: u64)
    requires
        x ^ y == 0,
    ensures
        x == y,
{
    assert(x == y) by (bit_vector)
        requires
            x ^ y == 0,
    ;
}

proof fn lemma_xor_cancel(x: u64, y: u64, d: u64)
    requires
        x ^ d == y ^ d,
    ensures
        x == y,
{
    assert(x == y) by (bit_vector)
        requires
            x ^ d == y ^ d,
    ;
}

/// Every lane is moved somewhere.
proof fn lemma_pi_onto(s: int)
    requires
        0 <= s < 25,
    ensures
        ({
            let i = s / 5 + 5 * ((2 * (s % 5) + 3 * (s / 5)) % 5);
            0 <= i < 25 && pi_source(i) == s
        }),
{
    let x = s / 5;
    let z = s % 5;
    assert(x == 0 || x == 1 || x == 2 || x == 3 || x == 4);
    assert(z == 0 || z == 1 || z == 2 || z == 3 || z == 4);
}

/// The rotations and the lane permutation are injective.
proof fn lemma_rho_pi_injective(a: Seq<u64>, b: Seq<u64>)
    requires
        a.len() == 25,
        b.len() == 25,
        rho_pi(a) == rho_pi(b),
    ensures
        a == b,
{
    assert forall|s: int| 0 <= s < 25 implies #[trigger] a[s] == b[s] by {
        let i = s / 5 + 5 * ((2 * (s % 5) + 3 * (s / 5)) % 5);
        lemma_pi_onto(s);
        assert(rho_pi(a)[i] == rho_pi(b)[i]);
        assert(rho_pi(a)[i] == rotl(a[pi_source(i)], RHO@[pi_source(i)]));
        assert(rho_pi(b)[i] == rotl(b[pi_source(i)], RHO@[pi_source(i)]));
        assert(RHO@[s] < 64);
        lemma_rotl_injective(a[s], b[s], RHO@[s]);
    }
    assert(a =~= b);
}

proof fn lemma_row_injective(
    a: u64,
    b: u64,
    c: u64,
    d: u64,
    e: u64,
    p: u64,
    q: u64,
    r: u64,
    s: u64,
    t: u64,
)
    requires
        a ^ ((!b) & c) == p ^ ((!q) & r),
        b ^ ((!c) & d) == q ^ ((!r) & s),
        c ^ ((!d) & e) == r ^ ((!s) & t),
        d ^ ((!e) & a) == s ^ ((!t) & p),
        e ^ ((!a) & b) == t ^ ((!p) & q),
    ensures
        a == p && b == q && c == r && d == s && e == t,
{
    assert(a == p && b == q && c == r && d == s && e == t) by (bit_vector)
        requires
            a ^ ((!b) & c) == p ^ ((!q) & r),
            b ^ ((!c) & d) == q ^ ((!r) & s),
            c ^ ((!d) & e) == r ^ ((!s) & t),
            d ^ ((!e) & a) == s ^ ((!t) & p),
            e ^ ((!a) & b) == t ^ ((!p) & q),
    ;
}

/// The row step within plane `y`.
proof fn lemma_chi_plane(a: Seq<u64>, y: int)
    requires
        a.len() == 25,
        0 <= y < 5,
    ensures
        chi(a)[5 * y] == a[5 * y] ^ ((!a[5 * y + 1]) & a[5 * y + 2]),
        chi(a)[5 * y + 1] == a[5 * y + 1] ^ ((!a[5 * y + 2]) & a[5 * y + 3]),
        chi(a)[5 * y + 2] == a[5 * y + 2] ^ ((!a[5 * y + 3]) & a[5 * y + 4]),
        chi(a)[5 * y + 3] == a[5 * y + 3] ^ ((!a[5 * y + 4]) & a[5 * y]),
        chi(a)[5 * y + 4] == a[5 * y + 4] ^ ((!a[5 * y]) & a[5 * y + 1]),
{
    assert((5 * y) / 5 == y && (5 * y) % 5 == 0);
    assert((5 * y + 1) / 5 == y && (5 * y + 1) % 5 == 1);
    assert((5 * y + 2) / 5 == y && (5 * y + 2) % 5 == 2);
    assert((5 * y + 3) / 5 == y && (5 * y + 3) % 5 == 3);
    assert((5 * y + 4) / 5 == y && (5 * y + 4) % 5 == 4);
}

/// The row step is injective.
proof fn lemma_chi_injective(a: Seq<u64>, b: Seq<u64>)
    requires
        a.len() == 25,
        b.len() == 25,
        chi(a) == chi(b),
    ensures
        a == b,
{
    assert forall|i: int| 0 <= i < 25 implies #[trigger] a[i] == b[i] by {
        let y = i / 5;
        let o = 5 * y;
        lemma_chi_plane(a, y);
        lemma_chi_plane(b, y);
        lemma_row_injective(
            a[o],
            a[o + 1],
            a[o + 2],
            a[o + 3],
            a[o + 4],
            b[o],
            b[o + 1],
            b[o + 2],
            b[o + 3],
            b[o + 4],
        );
        let x = i % 5;
        assert(x == 0 || x == 1 || x == 2 || x == 3 || x == 4);
    }
    assert(a =~= b);
}

/// The round is injective: different states lead to different states.
pub proof fn lemma_round_injective(a: Seq<u64>, b: Seq<u64>, rc: u64)
    requires
        a.len() == 25,
        b.len() == 25,
        a != b,
    ensures
        round(a, rc) != round(b, rc),
{
    reveal(round);
    if round(a, rc) == round(b, rc) {
        let p = chi(rho_pi(theta(a)));
        let q = chi(rho_pi(theta(b)));
        assert forall|i: int| 0 <= i < 25 implies #[trigger] p[i] == q[i] by {
            assert(round(a, rc)[i] == round(b, rc)[i]);
            if i == 0 {
                lemma_xor_cancel(p[0], q[0], rc);
            }
        }
        assert(p =~= q);
        lemma_chi_injective(rho_pi(theta(a)), rho_pi(theta(b)));
        lemma_rho_pi_injective(theta(a), theta(b));
        lemma_theta_injective(a, b);
    }
}

/// The round constant changes lane 0 only, and is added to it.
pub proof fn lemma_round_constant(a: Seq<u64>, rc: u64)
    requires
        a.len() == 25,
    ensures
        round(a, rc).len() == 25,
        round(a, rc)[0] == round(a, 0)[0] ^ rc,
        forall|i: int| 1 <= i < 25 ==> #[trigger] round(a, rc)[i] == round(a, 0)[i],
{
    reveal(round);
    let x: u64 = chi(rho_pi(theta(a)))[0];
    assert(x ^ rc == (x ^ 0u64) ^ rc) by (bit_vector);
}

/// Any number of rounds is injective.
proof fn lemma_rounds_injective(a: Seq<u64>, b: Seq<u64>, n: nat)
    requires
        a.len() == 25,
        b.len() == 25,
        a != b,
    ensures
        rounds(a, n) != rounds(b, n),
    decreases n,
{
    if n > 0 {
        let m = (n - 1) as nat;
        lemma_rounds_injective(a, b, m);
        lemma_rounds_len(a, m);
        lemma_rounds_len(b, m);
        lemma_round_injective(rounds(a, m), rounds(b, m), RC@[n - 1]);
    }
}

/// The whole permutation is injective.
pub proof fn lemma_permute_injective(a: Seq<u64>, b: Seq<u64>)
    requires
        a.len() == 25,
        b.len() == 25,
        a != b,
    ensures
        permute(a) != permute(b),
{
    lemma_rounds_injective(a, b, 24);
}

} // verus!
