//! Bits and powers of two of natural numbers.
use vstd::prelude::*;

verus! {

/// Bit `k` of a number.
pub open spec fn nat_bit(t: int, k: nat) -> bool
    decreases k,
{
    if k == 0 {
        t % 2 == 1
    } else {
        nat_bit(t / 2, (k - 1) as nat)
    }
}

/// A power of two.
pub open spec fn is_pow2(h: int) -> bool
    decreases h,
{
    h == 1 || (h > 1 && h % 2 == 0 && is_pow2(h / 2))
}

/// `2^k`.
pub open spec fn exp2(k: nat) -> nat
    decreases k,
{
    if k == 0 {
        1
    } else {
        2 * exp2((k - 1) as nat)
    }
}

/// `n` halved `k` times.
pub open spec fn shr(n: int, k: nat) -> int
    decreases k,
{
    if k == 0 {
        n
    } else {
        shr(n / 2, (k - 1) as nat)
    }
}

/// The number of times a number can be halved before it drops below two.
pub open spec fn floor_log2(n: int) -> nat
    decreases n,
{
    if n <= 1 {
        0
    } else {
        1 + floor_log2(n / 2)
    }
}

pub proof fn lemma_exp2_positive(k: nat)
    ensures
        exp2(k) >= 1,
    decreases k,
{
    if k > 0 {
        lemma_exp2_positive((k - 1) as nat);
    }
}

/// `exp2` grows with its argument.
pub proof fn lemma_exp2_monotone(a: nat, b: nat)
    requires
        a <= b,
    ensures
        exp2(a) <= exp2(b),
    decreases b,
{
    if a < b {
        lemma_exp2_monotone(a, (b - 1) as nat);
    }
}

/// `log2` of `2^k` is `k`, and `2^k` is a power of two.
pub proof fn lemma_exp2_log(k: nat)
    ensures
        floor_log2(exp2(k) as int) == k,
        is_pow2(exp2(k) as int),
    decreases k,
{
    if k > 0 {
        lemma_exp2_log((k - 1) as nat);
        lemma_exp2_positive((k - 1) as nat);
        assert(exp2(k) as int / 2 == exp2((k - 1) as nat) as int);
    }
}

/// A power of two is two to its logarithm.
pub proof fn lemma_pow2_is_exp2(h: int)
    requires
        is_pow2(h),
    ensures
        h == exp2(floor_log2(h)),
    decreases h,
{
    if h > 1 {
        lemma_pow2_is_exp2(h / 2);
    }
}

/// Halving keeps a number between zero and itself.
pub proof fn lemma_shr_bounds(n: int, k: nat)
    requires
        0 <= n,
    ensures
        0 <= shr(n, k) <= n,
    decreases k,
{
    if k > 0 {
        lemma_shr_bounds(n / 2, (k - 1) as nat);
    }
}

/// Halving `k` times divides by `2^k`.
pub proof fn lemma_shr_divides(n: int, k: nat)
    requires
        0 <= n,
    ensures
        shr(n, k) == n / (exp2(k) as int),
    decreases k,
{
    if k > 0 {
        let e = exp2((k - 1) as nat) as int;
        lemma_exp2_positive((k - 1) as nat);
        lemma_shr_divides(n / 2, (k - 1) as nat);
        vstd::arithmetic::div_mod::lemma_div_denominator(n, 2, e);
        assert(exp2(k) as int == 2 * e);
    } else {
        assert(exp2(0) == 1);
        assert(n / 1 == n);
    }
}

/// Halving once more, and the bit that is dropped.
pub proof fn lemma_shr_step(n: int, k: nat)
    ensures
        shr(n, k + 1) == shr(n, k) / 2,
        nat_bit(n, k) == (shr(n, k) % 2 == 1),
    decreases k,
{
    reveal_with_fuel(shr, 2);
    if k > 0 {
        lemma_shr_step(n / 2, (k - 1) as nat);
    }
}

/// `n` halved `k` times.
pub fn shift_right(n: usize, k: usize) -> (r: usize)
    ensures
        r == shr(n as int, k as nat),
{
    let mut r: usize = n;
    let mut i: usize = 0;
    while i < k && r > 0
        invariant
            i <= k,
            shr(n as int, k as nat) == shr(r as int, (k - i) as nat),
        decreases k - i,
    {
        r = r / 2;
        i += 1;
    }
    proof {
        if i < k {
            lemma_shr_zero((k - i) as nat);
        }
    }
    r
}

proof fn lemma_shr_zero(k: nat)
    ensures
        shr(0, k) == 0,
    decreases k,
{
    if k > 0 {
        lemma_shr_zero((k - 1) as nat);
    }
}

/// Whether a number is a power of two; if so, its logarithm.
pub fn log2_strict(n: usize) -> (r: Option<usize>)
    ensures
        r matches Some(k) ==> is_pow2(n as int) && k == floor_log2(n as int) && n == exp2(k as nat),
        r is None ==> !is_pow2(n as int),
{
    if n == 0 {
        return None;
    }
    let mut m: usize = n;
    let mut k: usize = 0;
    while m > 1
        invariant
            1 <= m <= n,
            k + m <= n,
            is_pow2(n as int) == is_pow2(m as int),
            floor_log2(n as int) == k + floor_log2(m as int),
        decreases m,
    {
        if m % 2 == 1 {
            return None;
        }
        m = m / 2;
        k += 1;
    }
    proof {
        lemma_pow2_is_exp2(n as int);
    }
    Some(k)
}

/// The floor of the base-two logarithm.
pub fn log2_floor(n: usize) -> (r: usize)
    ensures
        r == floor_log2(n as int),
{
    let mut m: usize = n;
    let mut k: usize = 0;
    while m > 1
        invariant
            m <= n,
            k + m <= n,
            floor_log2(n as int) == k + floor_log2(m as int),
        decreases m,
    {
        m = m / 2;
        k += 1;
    }
    k
}

/// `2^k`, where it fits.
pub fn pow2_usize(k: usize) -> (r: usize)
    requires
        exp2(k as nat) <= usize::MAX,
    ensures
        r == exp2(k as nat),
{
    let mut r: usize = 1;
    let mut i: usize = 0;
    while i < k
        invariant
            i <= k,
            r == exp2(i as nat),
            exp2(k as nat) <= usize::MAX,
        decreases k - i,
    {
        proof {
            lemma_exp2_monotone((i + 1) as nat, k as nat);
        }
        r = r * 2;
        i += 1;
    }
    r
}

} // verus!
