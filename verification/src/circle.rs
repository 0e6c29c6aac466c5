//! The circle group over the base field and the twin cosets FRI works on.
//!
//! A point is a pair `(x, y)` of residues with `x^2 + y^2 = 1`; points add as complex numbers
//! multiply.
use p3_field::extension::ComplexExtendable;
use p3_field::PrimeField32;
use p3_mersenne_31::Mersenne31;
use p3_util::reverse_bits_len;
use vstd::arithmetic::div_mod::{
    lemma_add_mod_noop, lemma_mul_mod_noop_left, lemma_mul_mod_noop_right, lemma_sub_mod_noop,
};
use vstd::prelude::*;

use crate::bits::{exp2, lemma_exp2_monotone, pow2_usize};
use crate::field::{canonical, fmul, fneg, Val, P};

verus! {

/// The sum of two points.
#[verifier::opaque]
pub open spec fn cadd(a: (int, int), b: (int, int)) -> (int, int) {
    ((a.0 * b.0 - a.1 * b.1) % (P as int), (a.0 * b.1 + a.1 * b.0) % (P as int))
}

/// The neutral point.
pub open spec fn cid() -> (int, int) {
    (1, 0)
}

/// The point opposite the neutral one.
pub open spec fn copp() -> (int, int) {
    (P as int - 1, 0)
}

pub open spec fn cneg(a: (int, int)) -> (int, int) {
    (a.0, fneg(a.1))
}

pub open spec fn ccanonical(a: (int, int)) -> bool {
    0 <= a.0 < P && 0 <= a.1 < P
}

pub open spec fn on_circle(a: (int, int)) -> bool {
    (a.0 * a.0 + a.1 * a.1) % (P as int) == 1
}

/// `n` times a point.
pub open spec fn cmul(a: (int, int), n: nat) -> (int, int)
    decreases n,
{
    if n == 0 {
        cid()
    } else {
        cadd(cmul(a, (n - 1) as nat), a)
    }
}

/// A point doubled `k` times.
pub open spec fn cdoubled(a: (int, int), k: nat) -> (int, int)
    decreases k,
{
    if k == 0 {
        a
    } else {
        cdoubled(cadd(a, a), (k - 1) as nat)
    }
}

/// The generator of the subgroup of order `2^bits`.
pub uninterp spec fn circle_generator(bits: nat) -> (int, int);

/// `Mersenne31::circle_two_adic_generator` of `p3_field::extension::ComplexExtendable`: a
/// table of points on the circle, named `circle_generator`, in which each entry is the double
/// of the next; entry one is the point opposite the neutral one and entry zero is neutral.
#[verifier::external_body]
fn mersenne_circle_generator(bits: usize) -> (r: (Val, Val))
    requires
        bits <= 31,
    ensures
        (r.0@, r.1@) == circle_generator(bits as nat),
        on_circle((r.0@, r.1@)),
        forall|k: nat|
            k <= bits ==> #[trigger] cdoubled((r.0@, r.1@), k) == circle_generator(
                (bits - k) as nat,
            ),
        bits >= 1 ==> cdoubled((r.0@, r.1@), (bits - 1) as nat) == copp(),
        bits == 0 ==> (r.0@, r.1@) == cid(),
{
    let g = Mersenne31::circle_two_adic_generator(bits);
    (Val::from_u32(g.real().as_canonical_u32()), Val::from_u32(g.imag().as_canonical_u32()))
}

/// The low `len` bits of a number in reverse order.
pub open spec fn rev_bits(x: int, len: nat) -> int
    decreases len,
{
    if len == 0 {
        0
    } else {
        (x % 2) * exp2((len - 1) as nat) + rev_bits(x / 2, (len - 1) as nat)
    }
}

/// `p3_util::reverse_bits_len`: the low `bit_len` bits of `x` in reverse order. A length of
/// zero is left out for nonzero `x`, where the result depends on the width of `usize`.
#[verifier::external_body]
fn reverse_bits(x: usize, bit_len: usize) -> (r: usize)
    requires
        bit_len <= 32,
        bit_len > 0 || x == 0,
    ensures
        r == rev_bits(x as int, bit_len as nat),
{
    reverse_bits_len(x, bit_len)
}

pub proof fn lemma_rev_bits_bound(x: int, len: nat)
    requires
        0 <= x,
    ensures
        0 <= rev_bits(x, len) < exp2(len),
    decreases len,
{
    if len > 0 {
        lemma_rev_bits_bound(x / 2, (len - 1) as nat);
        let e: int = exp2((len - 1) as nat) as int;
        assert((x % 2) * e == 0 || (x % 2) * e == e) by {
            assert(x % 2 == 0 || x % 2 == 1);
        }
    }
}

/// A point of the base circle.
#[derive(Copy, Clone, Debug)]
pub struct CircPoint {
    pub x: Val,
    pub y: Val,
}

impl View for CircPoint {
    type V = (int, int);

    open spec fn view(&self) -> (int, int) {
        (self.x@, self.y@)
    }
}

impl CircPoint {
    /// The generator of the subgroup of order `2^log_n`.
    pub fn generator(log_n: usize) -> (r: Self)
        requires
            log_n <= 31,
        ensures
            r@ == circle_generator(log_n as nat),
            on_circle(r@),
            forall|k: nat|
                k <= log_n ==> #[trigger] cdoubled(r@, k) == circle_generator((log_n - k) as nat),
            log_n >= 1 ==> cdoubled(r@, (log_n - 1) as nat) == copp(),
            log_n == 0 ==> r@ == cid(),
    {
        let (x, y) = mersenne_circle_generator(log_n);
        CircPoint { x, y }
    }

    /// The sum of two points.
    pub fn plus(&self, o: &CircPoint) -> (r: Self)
        ensures
            r@ == cadd(self@, o@),
    {
        let r = CircPoint {
            x: self.x.times(&o.x).minus(&self.y.times(&o.y)),
            y: self.x.times(&o.y).plus(&self.y.times(&o.x)),
        };
        proof {
            reveal(cadd);
            lemma_sub_mod_noop(self.x@ * o.x@, self.y@ * o.y@, P as int);
            lemma_add_mod_noop(self.x@ * o.y@, self.y@ * o.x@, P as int);
        }
        r
    }

    pub fn negate(&self) -> (r: Self)
        ensures
            r@ == cneg(self@),
    {
        CircPoint { x: self.x, y: self.y.negate() }
    }

    /// `n` times a point.
    pub fn mul_usize(&self, n: usize) -> (r: Self)
        ensures
            r@ == cmul(self@, n as nat),
    {
        let mut result = CircPoint { x: Val::one(), y: Val::zero() };
        let mut base: CircPoint = *self;
        let mut m: usize = n;
        proof {
            lemma_cmul_canonical(self@, n as nat);
            lemma_cadd_id(cmul(self@, n as nat));
            lemma_cadd_comm(cid(), cmul(self@, n as nat));
        }
        while m > 0
            invariant
                cadd(result@, cmul(base@, m as nat)) == cmul(self@, n as nat),
                ccanonical(result@),
            decreases m,
        {
            proof {
                lemma_cmul_halve(base@, m as nat);
                let h = cmul(cadd(base@, base@), (m / 2) as nat);
                lemma_cadd_assoc(result@, base@, h);
                lemma_cadd_canonical(result@, base@);
                lemma_cadd_comm(h, base@);
            }
            if m % 2 == 1 {
                result = result.plus(&base);
            }
            base = base.plus(&base);
            m = m / 2;
        }
        proof {
            lemma_cadd_id(result@);
        }
        result
    }
}

/// Point `idx` of the standard twin coset of size `2^log_n`.
pub open spec fn nth_point(log_n: nat, idx: int) -> (int, int) {
    let shift = circle_generator(log_n + 1);
    let g = circle_generator((log_n - 1) as nat);
    if idx % 2 == 0 {
        cadd(shift, cmul(g, (idx / 2) as nat))
    } else {
        cadd(cneg(shift), cmul(g, (idx / 2 + 1) as nat))
    }
}

/// Point `idx` of the standard twin coset of size `2^log_n`; neither coordinate is zero
/// (the abscissa from size four on).
pub fn standard_nth_point(log_n: usize, idx: usize) -> (r: CircPoint)
    requires
        1 <= log_n <= 30,
    ensures
        r@ == nth_point(log_n as nat, idx as int),
        r.y@ != 0,
        log_n >= 2 ==> r.x@ != 0,
{
    let shift = CircPoint::generator(log_n + 1);
    let g = CircPoint::generator(log_n - 1);
    let half: usize = idx / 2;
    proof {
        lemma_subgroup_order(g@, (log_n - 1) as nat, log_n as nat);
        assert(cdoubled(shift@, (log_n + 1 - 1) as nat) == copp());
    }
    if idx % 2 == 0 {
        let m = g.mul_usize(half);
        proof {
            lemma_coset_point(shift@, g@, half as nat, log_n as nat);
        }
        shift.plus(&m)
    } else {
        let m = g.mul_usize(half + 1);
        let ns = shift.negate();
        proof {
            lemma_neg_on_circle(shift@);
            lemma_cdoubled_neg(shift@, log_n as nat);
            lemma_coset_point(ns@, g@, (half + 1) as nat, log_n as nat);
        }
        ns.plus(&m)
    }
}

/// The point whose abscissa twists an arity-two fold at position `index`.
pub open spec fn x_twiddle_point(index: int, log_folded_height: nat) -> (int, int) {
    cadd(
        circle_generator(log_folded_height + 3),
        cmul(
            circle_generator(log_folded_height + 1),
            rev_bits(index, log_folded_height) as nat,
        ),
    )
}

/// The twiddle of an arity-two fold. It is not that of an ordinate fold at the same position,
/// which is invertible.
pub fn x_twiddle(index: usize, log_folded_height: usize) -> (r: Val)
    requires
        log_folded_height <= 28,
        log_folded_height > 0 || index == 0,
    ensures
        r@ == x_twiddle_point(index as int, log_folded_height as nat).0,
        r@ != 0,
        r@ != y_twiddle_point(index as int, log_folded_height as nat).1,
        canonical(y_twiddle_point(index as int, log_folded_height as nat).1),
        exists|i: int|
            canonical(i) && #[trigger] fmul(
                y_twiddle_point(index as int, log_folded_height as nat).1,
                i,
            ) == 1,
{
    let shift = CircPoint::generator(log_folded_height + 3);
    let g = CircPoint::generator(log_folded_height + 1);
    let k: usize = reverse_bits(index, log_folded_height);
    let m = g.mul_usize(k);
    proof {
        let log_n: nat = (log_folded_height + 2) as nat;
        lemma_subgroup_order(g@, (log_folded_height + 1) as nat, log_n);
        lemma_coset_point(shift@, g@, k as nat, log_n);
        lemma_twiddles_differ(index as int, log_folded_height as nat);
    }
    shift.plus(&m).x
}

/// The natural position of the value stored at `index` after the circle transform.
pub open spec fn cfft_permuted(index: int, log_n: nat) -> int {
    if index % 2 == 0 {
        rev_bits(index / 2, log_n)
    } else {
        rev_bits(exp2(log_n) - index / 2 - 1, log_n)
    }
}

/// The indices that have a natural position: odd ones must not pass the end.
pub open spec fn cfft_index_ok(index: int, log_n: nat) -> bool {
    index % 2 == 0 || index / 2 < exp2(log_n)
}

/// The natural position of the value stored at `index` after the circle transform.
pub fn cfft_permute_index(index: usize, log_n: usize) -> (r: usize)
    requires
        1 <= log_n <= 30,
        cfft_index_ok(index as int, log_n as nat),
    ensures
        r == cfft_permuted(index as int, log_n as nat),
        r < exp2(log_n as nat),
{
    proof {
        lemma_exp2_monotone(log_n as nat, 30);
        lemma_exp2_30();
    }
    let half: usize = index / 2;
    if index % 2 == 0 {
        proof {
            lemma_rev_bits_bound(half as int, log_n as nat);
        }
        reverse_bits(half, log_n)
    } else {
        let size: usize = pow2_usize(log_n);
        proof {
            lemma_rev_bits_bound(size - half - 1, log_n as nat);
        }
        reverse_bits(size - half - 1, log_n)
    }
}

pub proof fn lemma_exp2_30()
    ensures
        exp2(30) == 0x4000_0000,
{
    reveal_with_fuel(exp2, 31);
}

/// The twiddle of the first, ordinate fold at position `index`.
pub open spec fn y_twiddle_point(index: int, log_folded_height: nat) -> (int, int) {
    nth_point(
        log_folded_height + 1,
        cfft_permuted(2 * index, log_folded_height + 1),
    )
}

/// The twiddle of the first, ordinate fold.
pub fn y_twiddle(index: usize, log_folded_height: usize) -> (r: Val)
    requires
        log_folded_height <= 29,
    ensures
        r@ == y_twiddle_point(index as int, log_folded_height as nat).1,
        r@ != 0,
{
    let i: usize = reverse_bits(index, log_folded_height + 1);
    proof {
        assert((2 * index as int) / 2 == index as int);
    }
    standard_nth_point(log_folded_height + 1, i).y
}

/// One doubling of an abscissa.
pub open spec fn x_double(x: int) -> int {
    (2 * (x * x) - 1) % (P as int)
}

/// The vanishing polynomial of the standard coset of size `2^log_n`, at abscissa `x`.
pub open spec fn v_n(x: int, log_n: nat) -> int
    decreases log_n,
{
    if log_n <= 1 {
        x
    } else {
        v_n(x_double(x), (log_n - 1) as nat)
    }
}

/// The vanishing polynomial of the standard coset of size `2^log_n`, at abscissa `x`.
pub fn point_v_n(x: Val, log_n: usize) -> (r: Val)
    ensures
        r@ == v_n(x@, log_n as nat),
{
    let one = Val::one();
    let mut cur: Val = x;
    let mut k: usize = log_n;
    while k > 1
        invariant
            one@ == 1,
            v_n(cur@, k as nat) == v_n(x@, log_n as nat),
        decreases k,
    {
        let sq = cur.times(&cur);
        let ghost c: int = cur@;
        cur = sq.plus(&sq).minus(&one);
        proof {
            lemma_x_double(c);
        }
        k -= 1;
    }
    cur
}

proof fn lemma_x_double(c: int)
    ensures
        ((((c * c) % (P as int) + (c * c) % (P as int)) % (P as int)) - 1) % (P as int) == x_double(
            c,
        ),
{
    let p: int = P as int;
    lemma_add_mod_noop(c * c, c * c, p);
    lemma_sub_mod_noop(c * c + c * c, 1, p);
    assert(1int % p == 1);
}

// ---- group laws ----

pub proof fn lemma_cadd_comm(a: (int, int), b: (int, int))
    ensures
        cadd(a, b) == cadd(b, a),
{
    reveal(cadd);
    assert(a.0 * b.0 == b.0 * a.0) by (nonlinear_arith);
    assert(a.1 * b.1 == b.1 * a.1) by (nonlinear_arith);
    assert(a.0 * b.1 == b.1 * a.0) by (nonlinear_arith);
    assert(a.1 * b.0 == b.0 * a.1) by (nonlinear_arith);
}

pub proof fn lemma_cadd_canonical(a: (int, int), b: (int, int))
    ensures
        ccanonical(cadd(a, b)),
{
    reveal(cadd);
}

pub proof fn lemma_cadd_id(a: (int, int))
    requires
        ccanonical(a),
    ensures
        cadd(a, cid()) == a,
{
    reveal(cadd);
    assert(a.0 * 1 == a.0 && a.1 * 1 == a.1 && a.0 * 0 == 0 && a.1 * 0 == 0);
}

proof fn lemma_dist_sub(x: int, y: int, z: int)
    ensures
        (y - z) * x == y * x - z * x,
        (y + z) * x == y * x + z * x,
        x * (y - z) == x * y - x * z,
        x * (y + z) == x * y + x * z,
{
    assert((y - z) * x == y * x - z * x) by (nonlinear_arith);
    assert((y + z) * x == y * x + z * x) by (nonlinear_arith);
    assert(x * (y - z) == x * y - x * z) by (nonlinear_arith);
    assert(x * (y + z) == x * y + x * z) by (nonlinear_arith);
}

proof fn lemma_mul_assoc3(x: int, y: int, z: int)
    ensures
        (x * y) * z == x * (y * z),
{
    assert((x * y) * z == x * (y * z)) by (nonlinear_arith);
}

/// Sums of products modulo the prime may be reduced term by term.
proof fn lemma_pair_residues(u: int, v: int)
    ensures
        ((u % (P as int)) - (v % (P as int))) % (P as int) == (u - v) % (P as int),
        ((u % (P as int)) + (v % (P as int))) % (P as int) == (u + v) % (P as int),
{
    lemma_sub_mod_noop(u, v, P as int);
    lemma_add_mod_noop(u, v, P as int);
}

pub proof fn lemma_cadd_assoc(a: (int, int), b: (int, int), c: (int, int))
    ensures
        cadd(cadd(a, b), c) == cadd(a, cadd(b, c)),
{
    reveal(cadd);
    let p: int = P as int;
    let x: int = a.0 * b.0 - a.1 * b.1;
    let y: int = a.0 * b.1 + a.1 * b.0;
    let u: int = b.0 * c.0 - b.1 * c.1;
    let v: int = b.0 * c.1 + b.1 * c.0;
    // left side
    lemma_mul_mod_noop_left(x, c.0, p);
    lemma_mul_mod_noop_left(y, c.1, p);
    lemma_mul_mod_noop_left(x, c.1, p);
    lemma_mul_mod_noop_left(y, c.0, p);
    lemma_pair_residues((x % p) * c.0, (y % p) * c.1);
    lemma_pair_residues(x * c.0, y * c.1);
    lemma_pair_residues((x % p) * c.1, (y % p) * c.0);
    lemma_pair_residues(x * c.1, y * c.0);
    // right side
    lemma_mul_mod_noop_right(a.0, u, p);
    lemma_mul_mod_noop_right(a.1, v, p);
    lemma_mul_mod_noop_right(a.0, v, p);
    lemma_mul_mod_noop_right(a.1, u, p);
    lemma_pair_residues(a.0 * (u % p), a.1 * (v % p));
    lemma_pair_residues(a.0 * u, a.1 * v);
    lemma_pair_residues(a.0 * (v % p), a.1 * (u % p));
    lemma_pair_residues(a.0 * v, a.1 * u);
    // integer identity
    lemma_dist_sub(c.0, a.0 * b.0, a.1 * b.1);
    lemma_dist_sub(c.1, a.0 * b.0, a.1 * b.1);
    lemma_dist_sub(c.0, a.0 * b.1, a.1 * b.0);
    lemma_dist_sub(c.1, a.0 * b.1, a.1 * b.0);
    lemma_dist_sub(a.0, b.0 * c.0, b.1 * c.1);
    lemma_dist_sub(a.1, b.0 * c.0, b.1 * c.1);
    lemma_dist_sub(a.0, b.0 * c.1, b.1 * c.0);
    lemma_dist_sub(a.1, b.0 * c.1, b.1 * c.0);
    lemma_mul_assoc3(a.0, b.0, c.0);
    lemma_mul_assoc3(a.0, b.0, c.1);
    lemma_mul_assoc3(a.0, b.1, c.0);
    lemma_mul_assoc3(a.0, b.1, c.1);
    lemma_mul_assoc3(a.1, b.0, c.0);
    lemma_mul_assoc3(a.1, b.0, c.1);
    lemma_mul_assoc3(a.1, b.1, c.0);
    lemma_mul_assoc3(a.1, b.1, c.1);
}

proof fn lemma_cmul_canonical(a: (int, int), n: nat)
    ensures
        ccanonical(cmul(a, n)),
{
    if n > 0 {
        lemma_cadd_canonical(cmul(a, (n - 1) as nat), a);
    }
}

/// `(a + b) + (c + d) = (a + c) + (b + d)`.
proof fn lemma_swap_middle(a: (int, int), b: (int, int), c: (int, int), d: (int, int))
    ensures
        cadd(cadd(a, b), cadd(c, d)) == cadd(cadd(a, c), cadd(b, d)),
{
    lemma_cadd_assoc(a, b, cadd(c, d));
    lemma_cadd_assoc(b, c, d);
    lemma_cadd_comm(b, c);
    lemma_cadd_assoc(c, b, d);
    lemma_cadd_assoc(a, c, cadd(b, d));
}

/// `2m` copies of a point are `m` copies of its double.
proof fn lemma_cmul_double(a: (int, int), m: nat)
    ensures
        cmul(a, 2 * m) == cmul(cadd(a, a), m),
    decreases m,
{
    if m > 0 {
        lemma_cmul_double(a, (m - 1) as nat);
        let t = cmul(a, (2 * (m - 1)) as nat);
        assert(cmul(a, (2 * m - 1) as nat) == cadd(t, a));
        assert(cmul(a, 2 * m) == cadd(cmul(a, (2 * m - 1) as nat), a));
        lemma_cadd_assoc(t, a, a);
    }
}

/// `m` copies of a point in terms of its double.
proof fn lemma_cmul_halve(a: (int, int), m: nat)
    requires
        m > 0,
    ensures
        m % 2 == 0 ==> cmul(a, m) == cmul(cadd(a, a), m / 2),
        m % 2 == 1 ==> cmul(a, m) == cadd(cmul(cadd(a, a), m / 2), a),
{
    lemma_cmul_double(a, m / 2);
    if m % 2 == 1 {
        assert((m - 1) as nat == 2 * (m / 2));
    }
}

/// Doubling is additive.
proof fn lemma_cdoubled_sum(a: (int, int), b: (int, int), k: nat)
    ensures
        cdoubled(cadd(a, b), k) == cadd(cdoubled(a, k), cdoubled(b, k)),
    decreases k,
{
    if k > 0 {
        lemma_swap_middle(a, b, a, b);
        lemma_cdoubled_sum(cadd(a, a), cadd(b, b), (k - 1) as nat);
    }
}

proof fn lemma_cdoubled_id(k: nat)
    ensures
        cdoubled(cid(), k) == cid(),
    decreases k,
{
    if k > 0 {
        lemma_cadd_id(cid());
        lemma_cdoubled_id((k - 1) as nat);
    }
}

/// If `k` doublings bring a point to the neutral one, so they do its multiples.
proof fn lemma_cdoubled_multiple(g: (int, int), m: nat, k: nat)
    requires
        cdoubled(g, k) == cid(),
    ensures
        cdoubled(cmul(g, m), k) == cid(),
    decreases m,
{
    if m == 0 {
        lemma_cdoubled_id(k);
    } else {
        lemma_cdoubled_multiple(g, (m - 1) as nat, k);
        lemma_cdoubled_sum(cmul(g, (m - 1) as nat), g, k);
        lemma_cadd_id(cid());
    }
}

/// Doublings compose.
proof fn lemma_cdoubled_split(a: (int, int), j: nat, k: nat)
    ensures
        cdoubled(a, j + k) == cdoubled(cdoubled(a, j), k),
    decreases j,
{
    if j > 0 {
        lemma_cdoubled_split(cadd(a, a), (j - 1) as nat, k);
    }
}

proof fn lemma_copp_doubled()
    ensures
        cadd(copp(), copp()) == cid(),
        cneg(copp()) == copp(),
{
    reveal(cadd);
    assert((P as int - 1) * (P as int - 1) == (P as int - 2) * (P as int) + 1) by (nonlinear_arith);
    vstd::arithmetic::div_mod::lemma_mod_multiples_vanish(P as int - 2, 1, P as int);
}

/// A generator of order `2^bits` is brought to the neutral point by `k >= bits` doublings.
proof fn lemma_subgroup_order(g: (int, int), bits: nat, k: nat)
    requires
        bits >= 1 ==> cdoubled(g, (bits - 1) as nat) == copp(),
        bits == 0 ==> g == cid(),
        k >= bits,
    ensures
        cdoubled(g, k) == cid(),
{
    if bits == 0 {
        lemma_cdoubled_id(k);
    } else {
        lemma_cdoubled_split(g, (bits - 1) as nat, (k - bits + 1) as nat);
        lemma_copp_doubled();
        lemma_cdoubled_id((k - bits) as nat);
    }
}

proof fn lemma_neg_square(y: int)
    ensures
        (fneg(y) * fneg(y)) % (P as int) == (y * y) % (P as int),
{
    let p: int = P as int;
    let n: int = (-y) % p;
    lemma_mul_mod_noop_left(-y, n, p);
    lemma_mul_mod_noop_right(-y, -y, p);
    assert((-y) * (-y) == y * y) by (nonlinear_arith);
}

proof fn lemma_neg_on_circle(a: (int, int))
    requires
        on_circle(a),
    ensures
        on_circle(cneg(a)),
{
    let n: int = fneg(a.1);
    lemma_neg_square(a.1);
    lemma_pair_residues(a.0 * a.0, n * n);
    lemma_pair_residues(a.0 * a.0, a.1 * a.1);
}

/// Negation is additive: `-(a) + -(a) = -(a + a)`.
proof fn lemma_neg_double(a: (int, int))
    ensures
        cadd(cneg(a), cneg(a)) == cneg(cadd(a, a)),
{
    reveal(cadd);
    let p: int = P as int;
    let n: int = fneg(a.1);
    lemma_neg_square(a.1);
    lemma_pair_residues(a.0 * a.0, n * n);
    lemma_pair_residues(a.0 * a.0, a.1 * a.1);
    lemma_mul_mod_noop_right(a.0, -a.1, p);
    lemma_mul_mod_noop_left(-a.1, a.0, p);
    lemma_pair_residues(a.0 * n, n * a.0);
    assert(a.0 * (-a.1) == -(a.0 * a.1)) by (nonlinear_arith);
    assert((-a.1) * a.0 == -(a.1 * a.0)) by (nonlinear_arith);
    let s: int = a.0 * a.1 + a.1 * a.0;
    lemma_pair_residues(a.0 * (-a.1), (-a.1) * a.0);
    lemma_sub_mod_noop(0, s, p);
    assert(0int % p == 0);
    assert((-s) % p == (0 - s) % p);
    lemma_sub_mod_noop(0, s % p, p);
    assert((s % p) % p == s % p);
}

proof fn lemma_cdoubled_neg(a: (int, int), k: nat)
    requires
        cdoubled(a, k) == copp(),
    ensures
        cdoubled(cneg(a), k) == copp(),
{
    lemma_cdoubled_neg_general(a, k);
    lemma_copp_doubled();
}

proof fn lemma_cdoubled_neg_general(a: (int, int), k: nat)
    ensures
        cdoubled(cneg(a), k) == cneg(cdoubled(a, k)),
    decreases k,
{
    if k > 0 {
        lemma_neg_double(a);
        lemma_cdoubled_neg_general(cadd(a, a), (k - 1) as nat);
    }
}

/// The sum of two points on the circle is on the circle.
pub proof fn lemma_sum_on_circle(a: (int, int), b: (int, int))
    requires
        on_circle(a),
        on_circle(b),
    ensures
        on_circle(cadd(a, b)),
{
    reveal(cadd);
    let p: int = P as int;
    let x: int = a.0 * b.0 - a.1 * b.1;
    let y: int = a.0 * b.1 + a.1 * b.0;
    let na: int = a.0 * a.0 + a.1 * a.1;
    let nb: int = b.0 * b.0 + b.1 * b.1;
    assert(x * x + y * y == na * nb) by {
        lemma_norm_product(a.0, a.1, b.0, b.1);
    }
    lemma_mul_mod_noop_left(x, x % p, p);
    lemma_mul_mod_noop_right(x, x, p);
    lemma_mul_mod_noop_left(y, y % p, p);
    lemma_mul_mod_noop_right(y, y, p);
    lemma_pair_residues((x % p) * (x % p), (y % p) * (y % p));
    lemma_pair_residues(x * x, y * y);
    lemma_mul_mod_noop_left(na, nb, p);
    lemma_mul_mod_noop_right(na % p, nb, p);
}

proof fn lemma_norm_product(a: int, b: int, c: int, d: int)
    ensures
        (a * c - b * d) * (a * c - b * d) + (a * d + b * c) * (a * d + b * c) == (a * a + b * b) * (c
            * c + d * d),
{
    let (u, v, s, t) = (a * c, b * d, a * d, b * c);
    assert((u - v) * (u - v) == u * u - 2 * (u * v) + v * v) by (nonlinear_arith);
    assert((s + t) * (s + t) == s * s + 2 * (s * t) + t * t) by (nonlinear_arith);
    assert((a * c) * (b * d) == (a * d) * (b * c)) by (nonlinear_arith);
    assert((a * a + b * b) * (c * c + d * d) == (a * a) * (c * c) + (a * a) * (d * d) + (b * b) * (c
        * c) + (b * b) * (d * d)) by (nonlinear_arith);
    assert((a * c) * (a * c) == (a * a) * (c * c)) by (nonlinear_arith);
    assert((b * d) * (b * d) == (b * b) * (d * d)) by (nonlinear_arith);
    assert((a * d) * (a * d) == (a * a) * (d * d)) by (nonlinear_arith);
    assert((b * c) * (b * c) == (b * b) * (c * c)) by (nonlinear_arith);
}

proof fn lemma_multiple_on_circle(g: (int, int), m: nat)
    requires
        on_circle(g),
    ensures
        on_circle(cmul(g, m)),
    decreases m,
{
    if m == 0 {
        assert(1int * 1int + 0int * 0int == 1) by (nonlinear_arith);
    } else {
        lemma_multiple_on_circle(g, (m - 1) as nat);
        lemma_sum_on_circle(cmul(g, (m - 1) as nat), g);
    }
}

/// A point on the circle with a zero coordinate is soon doubled to the neutral point.
proof fn lemma_axis_point(q: (int, int), k: nat)
    requires
        on_circle(q),
        ccanonical(q),
    ensures
        q.1 == 0 && k >= 1 ==> cdoubled(q, k) == cid(),
        q.0 == 0 && k >= 2 ==> cdoubled(q, k) == cid(),
{
    reveal(cadd);
    let p: int = P as int;
    if q.1 == 0 && k >= 1 {
        assert(q.0 * 0 == 0 && 0 * q.0 == 0 && 0 * 0 == 0);
        assert(cadd(q, q) == cid());
        lemma_cdoubled_id((k - 1) as nat);
    }
    if q.0 == 0 && k >= 2 {
        let y: int = q.1;
        assert(0 * 0 == 0 && 0 * y == 0 && y * 0 == 0);
        assert((y * y) % p == 1);
        lemma_pair_residues(0, y * y);
        assert(0int % p == 0);
        assert((0 - y * y) % p == p - 1);
        assert(cadd(q, q) == copp());
        lemma_copp_doubled();
        assert(cdoubled(q, k) == cdoubled(copp(), (k - 1) as nat));
        lemma_cdoubled_id((k - 2) as nat);
    }
}

/// A coset point: `log_n` doublings bring it opposite the neutral point, so its ordinate is
/// not zero and, from size four on, neither is its abscissa.
proof fn lemma_coset_point(shift: (int, int), g: (int, int), m: nat, log_n: nat)
    requires
        log_n >= 1,
        on_circle(shift),
        on_circle(g),
        cdoubled(shift, log_n) == copp(),
        cdoubled(g, log_n) == cid(),
    ensures
        cadd(shift, cmul(g, m)).1 != 0,
        log_n >= 2 ==> cadd(shift, cmul(g, m)).0 != 0,
{
    let q = cadd(shift, cmul(g, m));
    lemma_cadd_canonical(shift, cmul(g, m));
    lemma_multiple_on_circle(g, m);
    lemma_sum_on_circle(shift, cmul(g, m));
    lemma_cdoubled_sum(shift, cmul(g, m), log_n);
    lemma_cdoubled_multiple(g, m, log_n);
    lemma_cadd_id(copp());
    lemma_axis_point(q, log_n);
}

// ---- abscissas and ordinates ----

/// The coordinates of a doubled point on the circle.
proof fn lemma_double_coordinates(a: (int, int))
    requires
        on_circle(a),
    ensures
        cadd(a, a).0 == x_double(a.0),
        x_double(a.1) == fneg(cadd(a, a).0),
{
    reveal(cadd);
    let p: int = P as int;
    let u: int = a.0 * a.0;
    let v: int = a.1 * a.1;
    let q: int = (u + v) / p;
    vstd::arithmetic::div_mod::lemma_fundamental_div_mod(u + v, p);
    assert(u + v == p * q + 1);
    assert(2 * u - 1 == p * q + (u - v));
    vstd::arithmetic::div_mod::lemma_mod_multiples_vanish(q, u - v, p);
    assert(2 * v - 1 == p * q + (v - u));
    vstd::arithmetic::div_mod::lemma_mod_multiples_vanish(q, v - u, p);
    lemma_sub_mod_noop(0, u - v, p);
    assert(0int % p == 0);
    lemma_sub_mod_noop(0, (u - v) % p, p);
    assert(((u - v) % p) % p == (u - v) % p);
}

/// Doubling an abscissa forgets its sign.
proof fn lemma_x_double_sign(z: int)
    ensures
        x_double(fneg(z)) == x_double(z),
{
    let p: int = P as int;
    let n: int = fneg(z);
    lemma_neg_square(z);
    lemma_pair_residues(z * z, z * z);
    lemma_pair_residues(n * n, n * n);
    lemma_sub_mod_noop(2 * (z * z), 1, p);
    lemma_sub_mod_noop(2 * (n * n), 1, p);
}

/// Doubling stays on the circle.
proof fn lemma_doubled_on_circle(a: (int, int), k: nat)
    requires
        on_circle(a),
    ensures
        on_circle(cdoubled(a, k)),
    decreases k,
{
    if k > 0 {
        lemma_sum_on_circle(a, a);
        lemma_doubled_on_circle(cadd(a, a), (k - 1) as nat);
    }
}

/// Doubling an abscissa `k` times gives the abscissa of the point doubled `k` times.
proof fn lemma_abscissa_doubled(a: (int, int), k: nat)
    requires
        on_circle(a),
    ensures
        v_n(a.0, k + 1) == cdoubled(a, k).0,
    decreases k,
{
    if k > 0 {
        lemma_double_coordinates(a);
        lemma_sum_on_circle(a, a);
        lemma_abscissa_doubled(cadd(a, a), (k - 1) as nat);
    }
}

/// So does doubling an ordinate, from the second time on.
proof fn lemma_ordinate_doubled(a: (int, int), k: nat)
    requires
        on_circle(a),
        k >= 2,
    ensures
        v_n(a.1, k + 1) == cdoubled(a, k).0,
{
    let b = cadd(a, a);
    lemma_double_coordinates(a);
    lemma_x_double_sign(b.0);
    lemma_sum_on_circle(a, a);
    lemma_double_coordinates(b);
    lemma_sum_on_circle(b, b);
    lemma_abscissa_doubled(cadd(b, b), (k - 2) as nat);
    assert(v_n(a.1, k + 1) == v_n(x_double(a.1), k));
    assert(v_n(x_double(a.1), k) == v_n(x_double(x_double(a.1)), (k - 1) as nat));
    assert(cdoubled(a, k) == cdoubled(b, (k - 1) as nat));
}

/// The ordinate of a point divides that of its doubles.
proof fn lemma_ordinate_factor(a: (int, int), k: nat) -> (c: int)
    requires
        ccanonical(a),
    ensures
        cdoubled(a, k).1 == (a.1 * c) % (P as int),
    decreases k,
{
    let p: int = P as int;
    if k == 0 {
        assert(a.1 * 1 == a.1);
        1
    } else {
        reveal(cadd);
        let b = cadd(a, a);
        lemma_cadd_canonical(a, a);
        let d = lemma_ordinate_factor(b, (k - 1) as nat);
        let s: int = a.0 * a.1 + a.1 * a.0;
        lemma_mul_mod_noop_left(s, d, p);
        assert((a.0 * a.1 + a.1 * a.0) * d == a.1 * (2 * a.0 * d)) by (nonlinear_arith);
        2 * a.0 * d
    }
}

/// A point whose double is opposite the neutral one has ordinate one or minus one.
proof fn lemma_quarter_point(q: (int, int))
    requires
        on_circle(q),
        cadd(q, q) == copp(),
    ensures
        (q.1 * q.1) % (P as int) == 1,
{
    reveal(cadd);
    let p: int = P as int;
    let u: int = q.0 * q.0;
    let v: int = q.1 * q.1;
    let s: int = (u + v) / p;
    let t: int = (u - v) / p;
    vstd::arithmetic::div_mod::lemma_fundamental_div_mod(u + v, p);
    vstd::arithmetic::div_mod::lemma_fundamental_div_mod(u - v, p);
    assert(u + v == p * s + 1);
    assert(u - v == p * t + (p - 1));
    assert(p * s - p * t - p == p * (s - t - 1)) by (nonlinear_arith);
    let m: int = s - t - 1;
    assert(2 * v == p * m + 2);
    assert(m % 2 == 0) by {
        assert(p == 2 * 0x3fff_ffff + 1);
        assert(p * m == 2 * (0x3fff_ffff * m) + m) by (nonlinear_arith)
            requires
                p == 2 * 0x3fff_ffff + 1,
        ;
    }
    assert(v == p * (m / 2) + 1) by {
        assert(p * m == 2 * (p * (m / 2))) by (nonlinear_arith)
            requires
                m == 2 * (m / 2),
        ;
    }
    vstd::arithmetic::div_mod::lemma_mod_multiples_vanish(m / 2, 1, p);
}

/// A point brought opposite the neutral one by `k + 1` doublings has an invertible ordinate.
proof fn lemma_ordinate_invertible(q: (int, int), k: nat) -> (i: int)
    requires
        on_circle(q),
        ccanonical(q),
        cdoubled(q, k + 1) == copp(),
    ensures
        canonical(i),
        fmul(q.1, i) == 1,
{
    let p: int = P as int;
    let d = cdoubled(q, k);
    lemma_cdoubled_split(q, k, 1);
    assert(cdoubled(d, 1) == cadd(d, d)) by {
        reveal_with_fuel(cdoubled, 2);
    }
    lemma_doubled_on_circle(q, k);
    lemma_quarter_point(d);
    let c = lemma_ordinate_factor(q, k);
    // q.1 (c d.1) = (q.1 c) d.1 = d.1 d.1 = 1
    lemma_mul_mod_noop_left(q.1 * c, d.1, p);
    assert((q.1 * c) * d.1 == q.1 * (c * d.1)) by (nonlinear_arith);
    lemma_mul_mod_noop_right(q.1, c * d.1, p);
    (c * d.1) % p
}

/// What is known of the generator of the subgroup of order `2^n` and of those below it.
spec fn generator_known(n: nat) -> bool {
    &&& on_circle(circle_generator(n))
    &&& forall|k: nat|
        k <= n ==> #[trigger] cdoubled(circle_generator(n), k) == circle_generator((n - k) as nat)
    &&& cdoubled(circle_generator(n), (n - 1) as nat) == copp()
}

/// A generator below one that is known.
proof fn lemma_lower_generator(n: nat, k: nat)
    requires
        generator_known(n),
        k <= n,
        n >= 1,
    ensures
        on_circle(circle_generator((n - k) as nat)),
        n > k ==> cdoubled(circle_generator((n - k) as nat), (n - k - 1) as nat) == copp(),
        n == k ==> circle_generator(0) == cid(),
{
    let g = circle_generator(n);
    lemma_doubled_on_circle(g, k);
    assert(cdoubled(g, k) == circle_generator((n - k) as nat));
    if n > k {
        lemma_cdoubled_split(g, k, (n - k - 1) as nat);
    } else {
        lemma_cdoubled_split(g, (n - 1) as nat, 1);
        lemma_copp_doubled();
        assert(cdoubled(copp(), 1) == cadd(copp(), copp())) by {
            reveal_with_fuel(cdoubled, 2);
        }
    }
}

/// A point of a coset: on the circle, and opposite the neutral point after `k` doublings.
proof fn lemma_coset_order(shift: (int, int), g: (int, int), m: nat, k: nat)
    requires
        on_circle(shift),
        on_circle(g),
        cdoubled(shift, k) == copp(),
        cdoubled(g, k) == cid(),
    ensures
        on_circle(cadd(shift, cmul(g, m))),
        ccanonical(cadd(shift, cmul(g, m))),
        cdoubled(cadd(shift, cmul(g, m)), k) == copp(),
        cdoubled(cadd(shift, cmul(g, m)), k + 1) == cid(),
{
    let q = cadd(shift, cmul(g, m));
    lemma_cadd_canonical(shift, cmul(g, m));
    lemma_multiple_on_circle(g, m);
    lemma_sum_on_circle(shift, cmul(g, m));
    lemma_cdoubled_sum(shift, cmul(g, m), k);
    lemma_cdoubled_multiple(g, m, k);
    lemma_cadd_id(copp());
    lemma_cdoubled_split(q, k, 1);
    lemma_copp_doubled();
    assert(cdoubled(copp(), 1) == cadd(copp(), copp())) by {
        reveal_with_fuel(cdoubled, 2);
    }
}

/// The point of an ordinate twiddle: `h + 1` doublings bring it opposite the neutral point.
proof fn lemma_y_twiddle_order(index: int, h: nat)
    requires
        generator_known(h + 3),
        index >= 0,
    ensures
        on_circle(y_twiddle_point(index, h)),
        ccanonical(y_twiddle_point(index, h)),
        cdoubled(y_twiddle_point(index, h), h + 1) == copp(),
        cdoubled(y_twiddle_point(index, h), h + 2) == cid(),
{
    let shift = circle_generator(h + 2);
    let g = circle_generator(h);
    let idx = cfft_permuted(2 * index, h + 1);
    assert((2 * index) / 2 == index && (2 * index) % 2 == 0);
    lemma_rev_bits_bound(index, h + 1);
    lemma_lower_generator(h + 3, 1);
    lemma_lower_generator(h + 3, 3);
    lemma_subgroup_order(g, h, h + 1);
    if idx % 2 == 0 {
        lemma_coset_order(shift, g, (idx / 2) as nat, h + 1);
    } else {
        lemma_neg_on_circle(shift);
        lemma_cdoubled_neg(shift, h + 1);
        lemma_coset_order(cneg(shift), g, (idx / 2 + 1) as nat, h + 1);
    }
}

/// The two twiddles of a position differ, and the ordinate one is invertible.
proof fn lemma_twiddles_differ(index: int, h: nat)
    requires
        generator_known(h + 3),
        index >= 0,
    ensures
        x_twiddle_point(index, h).0 != y_twiddle_point(index, h).1,
        canonical(y_twiddle_point(index, h).1),
        exists|i: int| canonical(i) && #[trigger] fmul(y_twiddle_point(index, h).1, i) == 1,
{
    let xp = x_twiddle_point(index, h);
    let yp = y_twiddle_point(index, h);
    let shift = circle_generator(h + 3);
    let g = circle_generator(h + 1);
    lemma_rev_bits_bound(index, h);
    lemma_lower_generator(h + 3, 2);
    lemma_subgroup_order(g, h + 1, h + 2);
    lemma_coset_order(shift, g, rev_bits(index, h) as nat, h + 2);
    lemma_abscissa_doubled(xp, h + 2);
    lemma_y_twiddle_order(index, h);
    lemma_ordinate_doubled(yp, h + 2);
    let i = lemma_ordinate_invertible(yp, h);
}

} // verus!
