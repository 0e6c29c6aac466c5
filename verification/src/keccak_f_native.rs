//! Keccak-f\[1600\] and Keccak-256 with the `0x01` padding delimiter.
//!
//! A state is 25 lanes of 64 bits; lane `5 y + x` is column `x` of plane `y`.
use vstd::prelude::*;

use crate::agg_constraints::AGG_WIDTH;
use crate::field::{vals, Val};

verus! {

pub const KECCAK_ROUNDS: usize = 24;

/// Bytes absorbed per permutation.
pub const KECCAK_RATE: usize = 136;

pub const KECCAK_STATE_BYTES: usize = 200;

pub const KECCAK_STATE_BITS: usize = 1600;

pub const KECCAK_LANES: usize = 25;

pub const KECCAK_DELIM: u8 = 0x01;

pub const KECCAK256_OUT: usize = 32;

/// The round constants.
pub const RC: [u64; 24] = [
    0x0000_0000_0000_0001,
    0x0000_0000_0000_8082,
    0x8000_0000_0000_808A,
    0x8000_0000_8000_8000,
    0x0000_0000_0000_808B,
    0x0000_0000_8000_0001,
    0x8000_0000_8000_8081,
    0x8000_0000_0000_8009,
    0x0000_0000_0000_008A,
    0x0000_0000_0000_0088,
    0x0000_0000_8000_8009,
    0x0000_0000_8000_000A,
    0x0000_0000_8000_808B,
    0x8000_0000_0000_008B,
    0x8000_0000_0000_8089,
    0x8000_0000_0000_8003,
    0x8000_0000_0000_8002,
    0x8000_0000_0000_0080,
    0x0000_0000_0000_800A,
    0x8000_0000_8000_000A,
    0x8000_0000_8000_8081,
    0x8000_0000_0000_8080,
    0x0000_0000_8000_0001,
    0x8000_0000_8000_8008,
];

/// The rotation applied to each lane.
pub const RHO: [u32; 25] = [
    0, 1, 62, 28, 27, 36, 44, 6, 55, 20, 3, 10, 43, 25, 39, 41, 45, 15, 21, 8, 18, 2, 61, 56, 14,
];

/// Rotation to the left by `n` bits, `n < 64`.
pub open spec fn rotl(x: u64, n: u32) -> u64 {
    if n == 0 {
        x
    } else {
        (x << n) | (x >> ((64 - n) as u32))
    }
}

/// Parity of column `x`.
pub open spec fn theta_c(a: Seq<u64>, x: int) -> u64 {
    a[x] ^ a[x + 5] ^ a[x + 10] ^ a[x + 15] ^ a[x + 20]
}

/// The mask mixed into column `x`.
pub open spec fn theta_d(a: Seq<u64>, x: int) -> u64 {
    theta_c(a, (x + 4) % 5) ^ rotl(theta_c(a, (x + 1) % 5), 1)
}

/// The column-mixing step.
pub open spec fn theta(a: Seq<u64>) -> Seq<u64> {
    Seq::new(25, |i: int| a[i] ^ theta_d(a, i % 5))
}

/// The lane that the lane permutation moves to position `i`.
pub open spec fn pi_source(i: int) -> int {
    (i % 5 + 3 * (i / 5)) % 5 + 5 * (i % 5)
}

/// The rotation and lane-permutation steps.
pub open spec fn rho_pi(a: Seq<u64>) -> Seq<u64> {
    Seq::new(25, |i: int| rotl(a[pi_source(i)], RHO@[pi_source(i)]))
}

/// The lane `k` places after lane `i` in its plane.
pub open spec fn plane_step(i: int, k: int) -> int {
    5 * (i / 5) + (i % 5 + k) % 5
}

/// The nonlinear row step.
pub open spec fn chi(a: Seq<u64>) -> Seq<u64> {
    Seq::new(25, |i: int| a[i] ^ ((!a[plane_step(i, 1)]) & a[plane_step(i, 2)]))
}

/// One round of the permutation.
#[verifier::opaque]
pub open spec fn round(a: Seq<u64>, rc: u64) -> Seq<u64> {
    let b = chi(rho_pi(theta(a)));
    b.update(0, b[0] ^ rc)
}

/// The first `n` rounds.
pub open spec fn rounds(a: Seq<u64>, n: nat) -> Seq<u64>
    decreases n,
{
    if n == 0 {
        a
    } else {
        round(rounds(a, (n - 1) as nat), RC@[n - 1])
    }
}

/// The whole permutation.
pub open spec fn permute(a: Seq<u64>) -> Seq<u64> {
    rounds(a, 24)
}

fn rotate_lane(x: u64, n: u32) -> (r: u64)
    requires
        n < 64,
    ensures
        r == rotl(x, n),
{
    if n == 0 {
        x
    } else {
        (x << n) | (x >> (64 - n))
    }
}

/// One Keccak-f round (θ, ρ, π, χ, ι).
pub fn keccak_round(a: &mut [u64; KECCAK_LANES], rc: u64)
    ensures
        final(a)@ == round(old(a)@, rc),
{
    let ghost a0 = a@;
    let mut c = [0u64; 5];
    let mut x: usize = 0;
    while x < 5
        invariant
            x <= 5,
            a@ == a0,
            a0.len() == 25,
            c@.len() == 5,
            forall|j: int| 0 <= j < x ==> #[trigger] c@[j] == theta_c(a0, j),
        decreases 5 - x,
    {
        c[x] = a[x] ^ a[x + 5] ^ a[x + 10] ^ a[x + 15] ^ a[x + 20];
        x += 1;
    }
    let mut t = [0u64; 25];
    let mut i: usize = 0;
    while i < 25
        invariant
            i <= 25,
            a@ == a0,
            a0.len() == 25,
            c@.len() == 5,
            t@.len() == 25,
            forall|j: int| 0 <= j < 5 ==> #[trigger] c@[j] == theta_c(a0, j),
            forall|j: int| 0 <= j < i ==> #[trigger] t@[j] == theta(a0)[j],
        decreases 25 - i,
    {
        let x: usize = i % 5;
        let d: u64 = c[(x + 4) % 5] ^ rotate_lane(c[(x + 1) % 5], 1);
        t[i] = a[i] ^ d;
        i += 1;
    }
    let ghost t0 = t@;
    proof {
        assert(t0 =~= theta(a0));
        lemma_rho_small();
    }
    let mut b = [0u64; 25];
    i = 0;
    while i < 25
        invariant
            i <= 25,
            t@ == t0,
            t0.len() == 25,
            b@.len() == 25,
            forall|j: int| 0 <= j < 25 ==> #[trigger] RHO@[j] < 64,
            forall|j: int| 0 <= j < i ==> #[trigger] b@[j] == rho_pi(t0)[j],
        decreases 25 - i,
    {
        let src: usize = (i % 5 + 3 * (i / 5)) % 5 + 5 * (i % 5);
        let rho = RHO;
        b[i] = rotate_lane(t[src], rho[src]);
        i += 1;
    }
    let ghost b0 = b@;
    proof {
        assert(b0 =~= rho_pi(t0));
    }
    let mut o = [0u64; 25];
    i = 0;
    while i < 25
        invariant
            i <= 25,
            b@ == b0,
            b0.len() == 25,
            o@.len() == 25,
            forall|j: int| 0 <= j < i ==> #[trigger] o@[j] == chi(b0)[j],
        decreases 25 - i,
    {
        let base: usize = 5 * (i / 5);
        let t1: u64 = b[base + (i % 5 + 1) % 5];
        let t2: u64 = b[base + (i % 5 + 2) % 5];
        o[i] = b[i] ^ ((!t1) & t2);
        i += 1;
    }
    proof {
        assert(o@ =~= chi(b0));
    }
    o[0] = o[0] ^ rc;
    proof {
        reveal(round);
    }
    *a = o;
}

proof fn lemma_rho_small()
    ensures
        forall|j: int| 0 <= j < 25 ==> #[trigger] RHO@[j] < 64,
{
}

/// A round keeps the state at 25 lanes.
pub proof fn lemma_rounds_len(a: Seq<u64>, n: nat)
    requires
        a.len() == 25,
    ensures
        rounds(a, n).len() == 25,
    decreases n,
{
    if n > 0 {
        reveal(round);
        lemma_rounds_len(a, (n - 1) as nat);
    }
}

/// The Keccak-f\[1600\] permutation.
pub fn keccak_f(state: &mut [u64; KECCAK_LANES])
    ensures
        final(state)@ == permute(old(state)@),
{
    let ghost s0 = state@;
    let rc = RC;
    let mut r: usize = 0;
    while r < KECCAK_ROUNDS
        invariant
            r <= KECCAK_ROUNDS,
            rc@ == RC@,
            state@ == rounds(s0, r as nat),
        decreases KECCAK_ROUNDS - r,
    {
        keccak_round(state, rc[r]);
        r += 1;
    }
}

/// Byte `k` of a lane, least significant first.
pub open spec fn lane_byte(x: u64, k: int) -> u8 {
    ((x >> ((8 * k) as u64)) & 0xff) as u8
}

/// The lane held little-endian at `b[o .. o + 8]`.
pub open spec fn lane_at(b: Seq<u8>, o: int) -> u64 {
    (b[o] as u64) | ((b[o + 1] as u64) << 8) | ((b[o + 2] as u64) << 16) | ((b[o + 3] as u64) << 24)
        | ((b[o + 4] as u64) << 32) | ((b[o + 5] as u64) << 40) | ((b[o + 6] as u64) << 48) | ((
    b[o + 7] as u64) << 56)
}

/// Bit `b` of a lane, least significant first.
pub open spec fn lane_bit(x: u64, b: int) -> bool {
    (x >> (b as u64)) & 1 == 1
}

/// The state as 200 bytes.
pub open spec fn state_bytes(s: Seq<u64>) -> Seq<u8> {
    Seq::new(200, |i: int| lane_byte(s[i / 8], i % 8))
}

/// The state held in 200 bytes.
pub open spec fn bytes_state(b: Seq<u8>) -> Seq<u64> {
    Seq::new(25, |i: int| lane_at(b, 8 * i))
}

/// The state as 1600 bits, lane by lane.
pub open spec fn state_bits(s: Seq<u64>) -> Seq<bool> {
    Seq::new(1600, |i: int| lane_bit(s[i / 64], i % 64))
}

/// `keccak_round` on a state written out as bytes and read back loses nothing.
pub proof fn lemma_bytes_state_roundtrip(s: Seq<u64>)
    requires
        s.len() == 25,
    ensures
        bytes_state(state_bytes(s)) == s,
{
    let b = state_bytes(s);
    assert forall|i: int| 0 <= i < 25 implies #[trigger] bytes_state(b)[i] == s[i] by {
        let x: u64 = s[i];
        assert((8 * i) / 8 == i && (8 * i) % 8 == 0);
        assert((8 * i + 1) / 8 == i && (8 * i + 1) % 8 == 1);
        assert((8 * i + 2) / 8 == i && (8 * i + 2) % 8 == 2);
        assert((8 * i + 3) / 8 == i && (8 * i + 3) % 8 == 3);
        assert((8 * i + 4) / 8 == i && (8 * i + 4) % 8 == 4);
        assert((8 * i + 5) / 8 == i && (8 * i + 5) % 8 == 5);
        assert((8 * i + 6) / 8 == i && (8 * i + 6) % 8 == 6);
        assert((8 * i + 7) / 8 == i && (8 * i + 7) % 8 == 7);
        assert(b[8 * i] == ((x >> 0u64) & 0xff) as u8);
        assert(b[8 * i + 1] == ((x >> 8u64) & 0xff) as u8);
        assert(b[8 * i + 2] == ((x >> 16u64) & 0xff) as u8);
        assert(b[8 * i + 3] == ((x >> 24u64) & 0xff) as u8);
        assert(b[8 * i + 4] == ((x >> 32u64) & 0xff) as u8);
        assert(b[8 * i + 5] == ((x >> 40u64) & 0xff) as u8);
        assert(b[8 * i + 6] == ((x >> 48u64) & 0xff) as u8);
        assert(b[8 * i + 7] == ((x >> 56u64) & 0xff) as u8);
        lemma_lane_join(x);
    }
    assert(bytes_state(b) =~= s);
}

proof fn lemma_lane_join(x: u64)
    ensures
        x == ((((x >> 0u64) & 0xff) as u8) as u64) | (((((x >> 8u64) & 0xff) as u8) as u64) << 8)
            | (((((x >> 16u64) & 0xff) as u8) as u64) << 16) | (((((x >> 24u64) & 0xff) as u8)
            as u64) << 24) | (((((x >> 32u64) & 0xff) as u8) as u64) << 32) | (((((x >> 40u64)
            & 0xff) as u8) as u64) << 40) | (((((x >> 48u64) & 0xff) as u8) as u64) << 48) | (((((x
            >> 56u64) & 0xff) as u8) as u64) << 56),
{
    assert(x == ((((x >> 0u64) & 0xff) as u8) as u64) | (((((x >> 8u64) & 0xff) as u8) as u64) << 8)
        | (((((x >> 16u64) & 0xff) as u8) as u64) << 16) | (((((x >> 24u64) & 0xff) as u8) as u64)
        << 24) | (((((x >> 32u64) & 0xff) as u8) as u64) << 32) | (((((x >> 40u64) & 0xff) as u8)
        as u64) << 40) | (((((x >> 48u64) & 0xff) as u8) as u64) << 48) | (((((x >> 56u64) & 0xff)
        as u8) as u64) << 56)) by (bit_vector);
}

proof fn lemma_lane_split(b0: u8, b1: u8, b2: u8, b3: u8, b4: u8, b5: u8, b6: u8, b7: u8)
    ensures
        ({
            let x: u64 = (b0 as u64) | ((b1 as u64) << 8) | ((b2 as u64) << 16) | ((b3 as u64)
                << 24) | ((b4 as u64) << 32) | ((b5 as u64) << 40) | ((b6 as u64) << 48) | ((
            b7 as u64) << 56);
            &&& ((x >> 0u64) & 0xff) as u8 == b0
            &&& ((x >> 8u64) & 0xff) as u8 == b1
            &&& ((x >> 16u64) & 0xff) as u8 == b2
            &&& ((x >> 24u64) & 0xff) as u8 == b3
            &&& ((x >> 32u64) & 0xff) as u8 == b4
            &&& ((x >> 40u64) & 0xff) as u8 == b5
            &&& ((x >> 48u64) & 0xff) as u8 == b6
            &&& ((x >> 56u64) & 0xff) as u8 == b7
        }),
{
    assert({
        let x: u64 = (b0 as u64) | ((b1 as u64) << 8) | ((b2 as u64) << 16) | ((b3 as u64) << 24) | ((
        b4 as u64) << 32) | ((b5 as u64) << 40) | ((b6 as u64) << 48) | ((b7 as u64) << 56);
        ((x >> 0u64) & 0xff) as u8 == b0 && ((x >> 8u64) & 0xff) as u8 == b1 && ((x >> 16u64)
            & 0xff) as u8 == b2 && ((x >> 24u64) & 0xff) as u8 == b3 && ((x >> 32u64) & 0xff) as u8
            == b4 && ((x >> 40u64) & 0xff) as u8 == b5 && ((x >> 48u64) & 0xff) as u8 == b6 && ((x
            >> 56u64) & 0xff) as u8 == b7
    }) by (bit_vector);
}

/// Reading 200 bytes as a state and writing it back gives the same bytes.
pub proof fn lemma_state_bytes_roundtrip(b: Seq<u8>)
    requires
        b.len() == 200,
    ensures
        state_bytes(bytes_state(b)) == b,
{
    let s = bytes_state(b);
    assert forall|i: int| 0 <= i < 200 implies #[trigger] state_bytes(s)[i] == b[i] by {
        let l: int = i / 8;
        let o: int = 8 * l;
        lemma_lane_split(
            b[o],
            b[o + 1],
            b[o + 2],
            b[o + 3],
            b[o + 4],
            b[o + 5],
            b[o + 6],
            b[o + 7],
        );
        assert(s[l] == lane_at(b, o));
        let k: int = i % 8;
        assert(i == o + k);
        assert(k == 0 || k == 1 || k == 2 || k == 3 || k == 4 || k == 5 || k == 6 || k == 7);
    }
    assert(state_bytes(s) =~= b);
}

proof fn lemma_low_bits_agree(x: u64, y: u64, n: u64)
    requires
        1 <= n <= 64,
        forall|b: int| 0 <= b < n ==> #[trigger] lane_bit(x, b) == lane_bit(y, b),
    ensures
        x << ((64 - n) as u64) == y << ((64 - n) as u64),
    decreases n,
{
    let m: u64 = (n - 1) as u64;
    let c: u64 = (64 - n) as u64;
    let d: u64 = (64 - m) as u64;
    assert(lane_bit(x, m as int) == lane_bit(y, m as int));
    if n > 1 {
        lemma_low_bits_agree(x, y, m);
        assert(x << c == y << c) by (bit_vector)
            requires
                1 <= m < 64,
                c == 63 - m,
                d == 64 - m,
                x << d == y << d,
                ((x >> m) & 1 == 1) == ((y >> m) & 1 == 1),
        ;
    } else {
        assert(x << c == y << c) by (bit_vector)
            requires
                m == 0,
                c == 63,
                ((x >> m) & 1 == 1) == ((y >> m) & 1 == 1),
        ;
    }
}

/// A state is determined by its bits.
pub proof fn lemma_state_bits_injective(s: Seq<u64>, t: Seq<u64>)
    requires
        s.len() == 25,
        t.len() == 25,
        state_bits(s) == state_bits(t),
    ensures
        s == t,
{
    assert forall|l: int| 0 <= l < 25 implies #[trigger] s[l] == t[l] by {
        assert forall|b: int| 0 <= b < 64 implies #[trigger] lane_bit(s[l], b) == lane_bit(
            t[l],
            b,
        ) by {
            let i: int = 64 * l + b;
            assert(i / 64 == l && i % 64 == b);
            assert(state_bits(s)[i] == lane_bit(s[l], b));
            assert(state_bits(t)[i] == lane_bit(t[l], b));
        }
        lemma_low_bits_agree(s[l], t[l], 64);
        let x: u64 = s[l];
        let y: u64 = t[l];
        assert(x << 0u64 == x && y << 0u64 == y) by (bit_vector);
    }
    assert(s =~= t);
}

/// The state's bytes, each lane least significant byte first.
pub fn state_to_bytes(state: &[u64; KECCAK_LANES]) -> (out: [u8; KECCAK_STATE_BYTES])
    ensures
        out@ == state_bytes(state@),
{
    let mut out = [0u8; 200];
    let mut i: usize = 0;
    while i < 200
        invariant
            i <= 200,
            out@.len() == 200,
            forall|j: int| 0 <= j < i ==> #[trigger] out@[j] == state_bytes(state@)[j],
        decreases 200 - i,
    {
        let k: u64 = (i % 8) as u64;
        out[i] = ((state[i / 8] >> (8 * k)) & 0xff) as u8;
        i += 1;
    }
    proof {
        assert(out@ =~= state_bytes(state@));
    }
    out
}

/// The state held in 200 bytes.
pub fn bytes_to_state(bytes: &[u8; KECCAK_STATE_BYTES]) -> (out: [u64; KECCAK_LANES])
    ensures
        out@ == bytes_state(bytes@),
{
    let mut out = [0u64; 25];
    let mut i: usize = 0;
    while i < 25
        invariant
            i <= 25,
            out@.len() == 25,
            forall|j: int| 0 <= j < i ==> #[trigger] out@[j] == bytes_state(bytes@)[j],
        decreases 25 - i,
    {
        let o: usize = 8 * i;
        out[i] = (bytes[o] as u64) | ((bytes[o + 1] as u64) << 8) | ((bytes[o + 2] as u64) << 16)
            | ((bytes[o + 3] as u64) << 24) | ((bytes[o + 4] as u64) << 32) | ((bytes[o + 5] as u64)
            << 40) | ((bytes[o + 6] as u64) << 48) | ((bytes[o + 7] as u64) << 56);
        i += 1;
    }
    proof {
        assert(out@ =~= bytes_state(bytes@));
    }
    out
}

/// The state's bits, each lane least significant bit first.
pub fn state_to_bits(state: &[u64; KECCAK_LANES]) -> (bits: [bool; KECCAK_STATE_BITS])
    ensures
        bits@ == state_bits(state@),
{
    let mut bits = [false; 1600];
    let mut i: usize = 0;
    while i < 1600
        invariant
            i <= 1600,
            bits@.len() == 1600,
            forall|j: int| 0 <= j < i ==> #[trigger] bits@[j] == state_bits(state@)[j],
        decreases 1600 - i,
    {
        let b: u64 = (i % 64) as u64;
        bits[i] = (state[i / 64] >> b) & 1 == 1;
        i += 1;
    }
    proof {
        assert(bits@ =~= state_bits(state@));
    }
    bits
}

/// The state whose bits are given.
pub fn bits_to_state(bits: &[bool; KECCAK_STATE_BITS]) -> (out: [u64; KECCAK_LANES])
    ensures
        state_bits(out@) == bits@,
{
    let mut out = [0u64; 25];
    let mut l: usize = 0;
    while l < 25
        invariant
            l <= 25,
            out@.len() == 25,
            bits@.len() == 1600,
            forall|j: int| 0 <= j < 64 * l ==> lane_bit(#[trigger] out@[j / 64], j % 64) == bits@[j],
        decreases 25 - l,
    {
        let mut lane: u64 = 0;
        let mut b: u64 = 0;
        let base: usize = 64 * l;
        proof {
            assert forall|k: int| 0 <= k < 64 implies !#[trigger] lane_bit(lane, k) by {
                let k64: u64 = k as u64;
                assert((0u64 >> k64) & 1 == 0) by (bit_vector)
                    requires
                        k64 < 64,
                ;
            }
        }
        while b < 64
            invariant
                b <= 64,
                l < 25,
                base == 64 * l,
                bits@.len() == 1600,
                forall|k: int| 0 <= k < b ==> #[trigger] lane_bit(lane, k) == bits@[base + k],
                forall|k: int| b <= k < 64 ==> !#[trigger] lane_bit(lane, k),
            decreases 64 - b,
        {
            let ghost prev: u64 = lane;
            let bit: bool = bits[base + b as usize];
            if bit {
                lane = lane | (1u64 << b);
            }
            proof {
                assert forall|k: int| 0 <= k < 64 implies #[trigger] lane_bit(lane, k) == (if k == b {
                    bit
                } else {
                    lane_bit(prev, k)
                }) by {
                    let k64: u64 = k as u64;
                    lemma_set_bit(prev, b, k64);
                    assert(lane_bit(prev, b as int) == false);
                }
            }
            b += 1;
        }
        let ghost before = out@;
        out[l] = lane;
        proof {
            assert forall|j: int| 0 <= j < 64 * (l + 1) implies lane_bit(
                #[trigger] out@[j / 64],
                j % 64,
            ) == bits@[j] by {
                if j < 64 * l {
                    assert(j / 64 < l);
                    assert(before[j / 64] == out@[j / 64]);
                } else {
                    assert(j / 64 == l);
                    assert(lane_bit(lane, j % 64) == bits@[base + j % 64]);
                }
            }
        }
        l += 1;
    }
    proof {
        assert forall|i: int| 0 <= i < 1600 implies #[trigger] state_bits(out@)[i] == bits@[i] by {
            assert(lane_bit(out@[i / 64], i % 64) == bits@[i]);
        }
        assert(state_bits(out@) =~= bits@);
    }
    out
}

proof fn lemma_set_bit(x: u64, b: u64, k: u64)
    requires
        b < 64,
        k < 64,
    ensures
        ((x | (1u64 << b)) >> k) & 1 == 1 <==> k == b || (x >> k) & 1 == 1,
{
    assert(((x | (1u64 << b)) >> k) & 1 == 1 <==> k == b || (x >> k) & 1 == 1) by (bit_vector)
        requires
            b < 64,
            k < 64,
    ;
}

/// Lanes to bits and back is the identity.
pub proof fn lemma_bits_state_roundtrip(s: Seq<u64>, t: Seq<u64>)
    requires
        s.len() == 25,
        t.len() == 25,
        state_bits(t) == state_bits(s),
    ensures
        t == s,
{
    lemma_state_bits_injective(t, s);
}

/// `b` with `src` exclusive-ored in from `offset` on.
pub open spec fn xor_at(b: Seq<u8>, offset: int, src: Seq<u8>) -> Seq<u8> {
    Seq::new(
        b.len(),
        |i: int|
            if offset <= i < offset + src.len() {
                b[i] ^ src[i - offset]
            } else {
                b[i]
            },
    )
}

/// A state with bytes absorbed from `offset` on.
pub open spec fn absorb(s: Seq<u64>, offset: int, src: Seq<u8>) -> Seq<u64> {
    bytes_state(xor_at(state_bytes(s), offset, src))
}

/// A state with the padding of a message whose last block holds `offset` bytes.
pub open spec fn pad(s: Seq<u64>, offset: int) -> Seq<u64> {
    let b = state_bytes(s);
    let b1 = b.update(offset, b[offset] ^ KECCAK_DELIM);
    bytes_state(b1.update(135, b1[135] ^ 0x80))
}

/// The state before the first absorb.
pub open spec fn zero_state() -> Seq<u64> {
    Seq::new(25, |i: int| 0u64)
}

/// The state after `k` full blocks of the message.
pub open spec fn absorbed(msg: Seq<u8>, k: nat) -> Seq<u64>
    decreases k,
{
    if k == 0 {
        zero_state()
    } else {
        permute(block_state(msg, (k - 1) as nat))
    }
}

/// The state that permutation `k` starts from while the message has full blocks left.
pub open spec fn block_state(msg: Seq<u8>, k: nat) -> Seq<u64>
    decreases k + 1,
{
    absorb(
        if k == 0 {
            zero_state()
        } else {
            permute(block_state(msg, (k - 1) as nat))
        },
        0,
        msg.subrange(136 * k as int, 136 * k as int + 136),
    )
}

/// The padded state that the last permutation starts from.
pub open spec fn last_block_state(msg: Seq<u8>) -> Seq<u64> {
    let q = msg.len() / 136;
    pad(
        absorb(absorbed(msg, q), 0, msg.subrange(136 * q as int, msg.len() as int)),
        msg.len() as int - 136 * q,
    )
}

/// The state after the last permutation.
pub open spec fn final_state(msg: Seq<u8>) -> Seq<u64> {
    permute(last_block_state(msg))
}

/// The Keccak-256 digest of a message.
#[verifier::opaque]
pub open spec fn keccak256_spec(msg: Seq<u8>) -> Seq<u8> {
    state_bytes(final_state(msg)).take(32)
}

/// The state that permutation `k` of the sponge starts from.
pub open spec fn perm_input(msg: Seq<u8>, k: nat) -> Seq<u64> {
    if k < msg.len() / 136 {
        block_state(msg, k)
    } else {
        last_block_state(msg)
    }
}

/// The state before round `i` of the sponge, counted over all permutations.
pub open spec fn witness_state(msg: Seq<u8>, i: int) -> Seq<u64> {
    rounds(perm_input(msg, (i / 24) as nat), (i % 24) as nat)
}

fn xor_bytes_into_state(state: &mut [u64; KECCAK_LANES], offset: usize, src: &[u8])
    requires
        offset + src@.len() <= 200,
    ensures
        final(state)@ == absorb(old(state)@, offset as int, src@),
{
    let ghost b0 = state_bytes(state@);
    let mut bytes = state_to_bytes(state);
    let mut i: usize = 0;
    while i < src.len()
        invariant
            i <= src.len(),
            offset + src@.len() <= 200,
            b0.len() == 200,
            bytes@ == xor_at(b0, offset as int, src@.take(i as int)),
        decreases src.len() - i,
    {
        bytes[offset + i] = bytes[offset + i] ^ src[i];
        i += 1;
        proof {
            assert(bytes@ =~= xor_at(b0, offset as int, src@.take(i as int)));
        }
    }
    proof {
        assert(src@.take(i as int) =~= src@);
    }
    *state = bytes_to_state(&bytes);
}

fn pad_state(state: &mut [u64; KECCAK_LANES], offset: usize)
    requires
        offset < 136,
    ensures
        final(state)@ == pad(old(state)@, offset as int),
{
    let mut bytes = state_to_bytes(state);
    bytes[offset] = bytes[offset] ^ KECCAK_DELIM;
    bytes[KECCAK_RATE - 1] = bytes[KECCAK_RATE - 1] ^ 0x80;
    *state = bytes_to_state(&bytes);
}

/// Keccak-256 of a message.
pub fn keccak256(msg: &[u8]) -> (out: [u8; KECCAK256_OUT])
    ensures
        out@ == keccak256_spec(msg@),
{
    let mut state = [0u64; 25];
    let mut ip: usize = 0;
    let ghost mut k: nat = 0;
    proof {
        assert(state@ =~= zero_state());
    }
    while msg.len() - ip >= KECCAK_RATE
        invariant
            ip == 136 * k,
            ip <= msg.len(),
            state@ == absorbed(msg@, k),
        decreases msg.len() - ip,
    {
        xor_bytes_into_state(
            &mut state,
            0,
            vstd::slice::slice_subrange(msg, ip, ip + KECCAK_RATE),
        );
        proof {
            assert(state@ == block_state(msg@, k));
        }
        keccak_f(&mut state);
        ip += KECCAK_RATE;
        proof {
            k = k + 1;
        }
    }
    let rest: usize = msg.len() - ip;
    proof {
        assert(k == msg@.len() / 136);
    }
    xor_bytes_into_state(&mut state, 0, vstd::slice::slice_subrange(msg, ip, msg.len()));
    pad_state(&mut state, rest);
    keccak_f(&mut state);
    let bytes = state_to_bytes(&state);
    let mut out = [0u8; 32];
    let mut i: usize = 0;
    while i < 32
        invariant
            i <= 32,
            out@.len() == 32,
            bytes@.len() == 200,
            forall|j: int| 0 <= j < i ==> out@[j] == bytes@[j],
        decreases 32 - i,
    {
        out[i] = bytes[i];
        i += 1;
    }
    proof {
        reveal(keccak256_spec);
        assert(out@ =~= keccak256_spec(msg@));
    }
    out
}

/// Byte `k` of a 32-bit word, least significant first.
pub open spec fn word_byte(x: int, k: int) -> u8 {
    if k == 0 {
        (x % 256) as u8
    } else if k == 1 {
        ((x / 256) % 256) as u8
    } else if k == 2 {
        ((x / 65536) % 256) as u8
    } else {
        ((x / 16777216) % 256) as u8
    }
}

/// The canonical little-endian bytes of a row of residues.
pub open spec fn row_bytes(row: Seq<int>) -> Seq<u8> {
    Seq::new(4 * row.len(), |i: int| word_byte(row[i / 4], i % 4))
}

/// Little-endian serialization of a row of field elements.
pub fn val_row_to_bytes(row: &[Val]) -> (out: Vec<u8>)
    ensures
        out@ == row_bytes(vals(row@)),
{
    let mut out: Vec<u8> = Vec::new();
    let mut i: usize = 0;
    while i < row.len()
        invariant
            i <= row.len(),
            out@ == row_bytes(vals(row@).take(i as int)),
        decreases row.len() - i,
    {
        let w: u32 = row[i].as_canonical_u32();
        out.push((w % 256) as u8);
        out.push(((w / 256) % 256) as u8);
        out.push(((w / 65536) % 256) as u8);
        out.push(((w / 16777216) % 256) as u8);
        proof {
            let a = vals(row@).take(i as int);
            let b = vals(row@).take(i + 1);
            assert forall|j: int| 0 <= j < 4 * (i + 1) implies #[trigger] out@[j] == row_bytes(
                b,
            )[j] by {
                if j < 4 * i {
                    assert(a[j / 4] == b[j / 4]);
                    assert(row_bytes(a)[j] == row_bytes(b)[j]);
                } else {
                    assert(j / 4 == i);
                    assert(b[i as int] == row@[i as int]@);
                }
            }
            assert(out@ =~= row_bytes(b));
        }
        i += 1;
    }
    proof {
        assert(vals(row@).take(i as int) =~= vals(row@));
    }
    out
}

/// Little-endian serialization of an aggregation-width row.
pub fn lde_row_to_bytes(row: &[Val]) -> (out: Vec<u8>)
    requires
        row@.len() == AGG_WIDTH,
    ensures
        out@ == row_bytes(vals(row@)),
{
    val_row_to_bytes(row)
}

/// Keccak-256 leaf digest of an aggregation-width row.
pub fn keccak256_lde_leaf(row: &[Val]) -> (out: [u8; KECCAK256_OUT])
    requires
        row@.len() == AGG_WIDTH,
    ensures
        out@ == keccak256_spec(row_bytes(vals(row@))),
{
    let b = lde_row_to_bytes(row);
    keccak256(b.as_slice())
}

/// Keccak-256 leaf digest of a row of any width.
pub fn keccak256_val_leaf(row: &[Val]) -> (out: [u8; KECCAK256_OUT])
    ensures
        out@ == keccak256_spec(row_bytes(vals(row@))),
{
    let b = val_row_to_bytes(row);
    keccak256(b.as_slice())
}

/// The 64-byte message `left || right`.
pub fn join_digests(left: &[u8; 32], right: &[u8; 32]) -> (msg: [u8; 64])
    ensures
        msg@ == left@ + right@,
{
    let mut msg = [0u8; 64];
    let mut i: usize = 0;
    while i < 32
        invariant
            i <= 32,
            msg@.len() == 64,
            left@.len() == 32,
            right@.len() == 32,
            forall|j: int| 0 <= j < i ==> msg@[j] == left@[j],
            forall|j: int| 0 <= j < i ==> msg@[32 + j] == right@[j],
        decreases 32 - i,
    {
        msg[i] = left[i];
        msg[32 + i] = right[i];
        i += 1;
    }
    proof {
        assert forall|j: int| 0 <= j < 64 implies #[trigger] msg@[j] == (left@ + right@)[j] by {
            if j >= 32 {
                assert(msg@[32 + (j - 32)] == right@[j - 32]);
            }
        }
        assert(msg@ =~= left@ + right@);
    }
    msg
}

/// Keccak-256 of two digests.
pub fn keccak256_compress(left: [u8; 32], right: [u8; 32]) -> (out: [u8; KECCAK256_OUT])
    ensures
        out@ == keccak256_spec(left@ + right@),
{
    let msg = join_digests(&left, &right);
    keccak256(vstd::array::array_as_slice(&msg))
}

/// Number of permutations for a message of the given length.
pub fn num_permutations(msg_len: usize) -> (n: usize)
    ensures
        n == msg_len / 136 + 1,
{
    msg_len / KECCAK_RATE + 1
}

fn push_rounds(pre_rounds: &mut Vec<[u64; KECCAK_LANES]>, state: &mut [u64; KECCAK_LANES])
    ensures
        final(state)@ == permute(old(state)@),
        final(pre_rounds)@.len() == old(pre_rounds)@.len() + 24,
        forall|i: int|
            0 <= i < old(pre_rounds)@.len() ==> #[trigger] final(pre_rounds)@[i]
                == old(pre_rounds)@[i],
        forall|i: int|
            old(pre_rounds)@.len() <= i < final(pre_rounds)@.len() ==> (
            #[trigger] final(pre_rounds)@[i])@ == rounds(
                old(state)@,
                (i - old(pre_rounds)@.len()) as nat,
            ),
{
    let ghost s0 = state@;
    let ghost p0 = pre_rounds@;
    let rc = RC;
    let mut r: usize = 0;
    while r < KECCAK_ROUNDS
        invariant
            r <= KECCAK_ROUNDS,
            rc@ == RC@,
            state@ == rounds(s0, r as nat),
            pre_rounds@.len() == p0.len() + r,
            forall|i: int| 0 <= i < p0.len() ==> #[trigger] pre_rounds@[i] == p0[i],
            forall|i: int|
                p0.len() <= i < pre_rounds@.len() ==> (#[trigger] pre_rounds@[i])@ == rounds(
                    s0,
                    (i - p0.len()) as nat,
                ),
        decreases KECCAK_ROUNDS - r,
    {
        pre_rounds.push(*state);
        keccak_round(state, rc[r]);
        r += 1;
    }
}

/// The state before every round of every permutation, and the state after the last one.
pub fn sponge_witness(msg: &[u8]) -> (w: (Vec<[u64; KECCAK_LANES]>, [u64; KECCAK_LANES]))
    ensures
        w.0@.len() == 24 * (msg@.len() / 136 + 1),
        forall|i: int|
            0 <= i < w.0@.len() ==> (#[trigger] w.0@[i])@ == witness_state(msg@, i),
        w.1@ == final_state(msg@),
{
    let mut pre_rounds: Vec<[u64; 25]> = Vec::new();
    let mut state = [0u64; 25];
    let mut ip: usize = 0;
    let ghost mut k: nat = 0;
    proof {
        assert(state@ =~= zero_state());
    }
    while msg.len() - ip >= KECCAK_RATE
        invariant
            ip == 136 * k,
            ip <= msg.len(),
            state@ == absorbed(msg@, k),
            pre_rounds@.len() == 24 * k,
            forall|i: int|
                0 <= i < pre_rounds@.len() ==> (#[trigger] pre_rounds@[i])@ == witness_state(
                    msg@,
                    i,
                ),
        decreases msg.len() - ip,
    {
        xor_bytes_into_state(
            &mut state,
            0,
            vstd::slice::slice_subrange(msg, ip, ip + KECCAK_RATE),
        );
        let ghost start = state@;
        let ghost before = pre_rounds@;
        proof {
            assert(start == block_state(msg@, k));
            assert(k < msg@.len() / 136);
        }
        push_rounds(&mut pre_rounds, &mut state);
        proof {
            assert forall|i: int| 0 <= i < pre_rounds@.len() implies (
            #[trigger] pre_rounds@[i])@ == witness_state(msg@, i) by {
                if i < before.len() {
                    assert(pre_rounds@[i] == before[i]);
                } else {
                    assert(i / 24 == k && i % 24 == i - before.len());
                }
            }
        }
        ip += KECCAK_RATE;
        proof {
            k = k + 1;
        }
    }
    let rest: usize = msg.len() - ip;
    proof {
        assert(k == msg@.len() / 136);
    }
    xor_bytes_into_state(&mut state, 0, vstd::slice::slice_subrange(msg, ip, msg.len()));
    pad_state(&mut state, rest);
    let ghost before = pre_rounds@;
    push_rounds(&mut pre_rounds, &mut state);
    proof {
        assert forall|i: int| 0 <= i < pre_rounds@.len() implies (#[trigger] pre_rounds@[i])@
            == witness_state(msg@, i) by {
            if i < before.len() {
                assert(pre_rounds@[i] == before[i]);
            } else {
                assert(i / 24 == k && i % 24 == i - before.len());
            }
        }
    }
    (pre_rounds, state)
}

} // verus!
