//! Numbers written as bit cells.
use vstd::prelude::*;

use crate::bits::{exp2, lemma_exp2_monotone, nat_bit};
use crate::constraint::fxor;
use crate::field::fbool;
use crate::path_gadgets::same_bits_upto;
use crate::segments::number_bits;
use crate::sponge_gadgets::{bits_value, bits_value_upto, eq_bits, eq_bits_upto, fpow2};

verus! {

/// The number that the low `n` bits spell.
pub open spec fn low_part(x: int, n: nat) -> int
    decreases n,
{
    if n == 0 {
        0
    } else {
        x % 2 + 2 * low_part(x / 2, (n - 1) as nat)
    }
}

/// One more bit adds its power.
proof fn lemma_low_step(x: int, n: nat)
    requires
        0 <= x,
    ensures
        low_part(x, n + 1) == low_part(x, n) + (if nat_bit(x, n) {
            exp2(n) as int
        } else {
            0
        }),
    decreases n,
{
    if n == 0 {
        assert(low_part(x / 2, 0) == 0);
    } else {
        lemma_low_step(x / 2, (n - 1) as nat);
    }
}

proof fn lemma_low_bound(x: int, n: nat)
    requires
        0 <= x,
    ensures
        0 <= low_part(x, n) < exp2(n),
        x < exp2(n) ==> low_part(x, n) == x,
    decreases n,
{
    if n > 0 {
        lemma_low_bound(x / 2, (n - 1) as nat);
    }
}

/// Powers of two up to the twentieth are below the modulus.
pub proof fn lemma_twenty(n: nat)
    requires
        n <= 20,
    ensures
        1 <= exp2(n) <= 1048576,
        fpow2(n) == exp2(n),
    decreases n,
{
    reveal_with_fuel(exp2, 21);
    lemma_exp2_monotone(n, 20);
    lemma_exp2_monotone(0, n);
    if n > 0 {
        lemma_twenty((n - 1) as nat);
    }
}

proof fn lemma_value_upto(x: int, w: nat, n: nat)
    requires
        0 <= x,
        n <= w <= 20,
    ensures
        bits_value_upto(number_bits(x, w), n) == low_part(x, n),
    decreases n,
{
    if n > 0 {
        let m = (n - 1) as nat;
        lemma_value_upto(x, w, m);
        lemma_low_step(x, m);
        lemma_low_bound(x, n);
        lemma_twenty(m);
        lemma_twenty(n);
        assert(number_bits(x, w)[n - 1] == fbool(nat_bit(x, m)));
    }
}

/// The cells of a number of at most twenty bits spell the number.
pub proof fn lemma_number_value(x: int, n: nat)
    requires
        n <= 20,
        0 <= x < exp2(n),
    ensures
        bits_value(number_bits(x, n)) == x,
{
    lemma_value_upto(x, n, n);
    lemma_low_bound(x, n);
}

proof fn lemma_eq_upto(x: int, t: int, w: nat, n: nat)
    requires
        0 <= x,
        0 <= t,
        n <= w,
    ensures
        eq_bits_upto(number_bits(x, w), t, n) == fbool(low_part(x, n) == low_part(t, n)),
    decreases n,
{
    if n > 0 {
        let m = (n - 1) as nat;
        lemma_eq_upto(x, t, w, m);
        lemma_low_step(x, m);
        lemma_low_step(t, m);
        lemma_low_bound(x, m);
        lemma_low_bound(t, m);
        assert(number_bits(x, w)[n - 1] == fbool(nat_bit(x, m)));
    }
}

/// The selector for `t` is on exactly at `t`.
pub proof fn lemma_number_eq(x: int, t: int, n: nat)
    requires
        0 <= x < exp2(n),
        0 <= t < exp2(n),
    ensures
        eq_bits(number_bits(x, n), t) == fbool(x == t),
{
    lemma_eq_upto(x, t, n, n);
    lemma_low_bound(x, n);
    lemma_low_bound(t, n);
}

/// The running comparison stays off once it is off, and on along equal bits.
pub proof fn lemma_same_bits(on: bool, a: Seq<int>, b: Seq<int>, n: nat)
    requires
        n <= a.len(),
        n <= b.len(),
        on ==> a == b && forall|k: int| 0 <= k < a.len() ==> #[trigger] a[k] == 0 || a[k] == 1,
    ensures
        same_bits_upto(fbool(on), a, b, n) == fbool(on),
    decreases n,
{
    if n > 0 {
        lemma_same_bits(on, a, b, (n - 1) as nat);
        if on {
            assert(a[n - 1] == 0 || a[n - 1] == 1);
            assert(fxor(0, 0) == 0 && fxor(1, 1) == 0);
        }
    }
}

/// Number cells are bits.
pub proof fn lemma_number_cells(x: int, n: nat)
    ensures
        number_bits(x, n).len() == n,
        forall|k: int| 0 <= k < n ==> #[trigger] number_bits(x, n)[k] == 0 || number_bits(x, n)[k] == 1,
{
}

} // verus!
