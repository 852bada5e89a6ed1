//! Counters that stop at the largest number instead of wrapping, and rounding.

use vstd::prelude::*;

verus! {

/// `n`, or the largest 64-bit number where it is larger.
pub open spec fn capped_u64(n: int) -> u64 {
    if n > u64::MAX {
        u64::MAX
    } else {
        n as u64
    }
}

/// `a + b`, as far as numbers go.
pub open spec fn plus(a: u64, b: u64) -> u64 {
    capped_u64(a + b)
}

/// `a * b`, as far as numbers go.
pub open spec fn times(a: u64, b: u64) -> u64 {
    capped_u64(a * b)
}

/// One more.
pub open spec fn bump(a: u64) -> u64 {
    plus(a, 1)
}

/// `a + b`, as far as numbers go.
pub fn add_capped(a: u64, b: u64) -> (r: u64)
    ensures
        r == plus(a, b),
{
    if b > u64::MAX - a {
        u64::MAX
    } else {
        a + b
    }
}

/// `a * b`, as far as numbers go.
pub fn mul_capped(a: u64, b: u64) -> (r: u64)
    ensures
        r == times(a, b),
{
    let wide: u128 = widen_product(a, b);
    if wide > u64::MAX as u128 {
        u64::MAX
    } else {
        wide as u64
    }
}

/// `a * b` in full.
pub fn widen_product(a: u64, b: u64) -> (r: u128)
    ensures
        r == a * b,
{
    assert(a * b <= u64::MAX * u64::MAX) by (nonlinear_arith)
        requires
            0 <= a <= u64::MAX,
            0 <= b <= u64::MAX,
    ;
    (a as u128) * (b as u128)
}

/// One more.
pub fn count_up(a: u64) -> (r: u64)
    ensures
        r == bump(a),
{
    add_capped(a, 1)
}

/// How many times `unit` is nearest to `n`; halfway between two, the even one.
pub open spec fn nearest(n: nat, unit: nat) -> nat {
    let q = n / unit;
    let rest = 2 * (n % unit);
    if rest > unit || (rest == unit && q % 2 == 1) {
        q + 1
    } else {
        q
    }
}

/// How many times `unit` is nearest to `n`; halfway between two, the even one.
pub fn round_even(n: u128, unit: u128) -> (r: u128)
    requires
        unit > 0,
    ensures
        r == nearest(n as nat, unit as nat),
{
    let q: u128 = n / unit;
    let rest: u128 = n % unit;
    if rest > unit - rest || (rest == unit - rest && q % 2 == 1) {
        proof {
            assert(unit > 1);
            assert(n / unit < u128::MAX) by (nonlinear_arith)
                requires
                    unit > 1,
                    n <= u128::MAX,
            ;
        }
        q + 1
    } else {
        q
    }
}

/// Counting is exact as long as there are numbers, and stops at the largest.
pub proof fn law_counting_stops_at_the_end(a: u64, b: u64)
    ensures
        a + b <= u64::MAX ==> plus(a, b) == a + b && plus(a, b) - a == b,
        a + b > u64::MAX ==> plus(a, b) == u64::MAX,
        a * b <= u64::MAX ==> times(a, b) == a * b,
        a * b > u64::MAX ==> times(a, b) == u64::MAX,
        a < u64::MAX ==> bump(a) == a + 1,
        bump(u64::MAX) == u64::MAX,
{
}

/// The nearest multiple is no further away than half a unit, and where it is that
/// far, it is an even one.
pub proof fn law_rounding_is_to_the_nearest(n: nat, unit: nat)
    requires
        unit > 0,
    ensures
        ({
            let off = 2 * (nearest(n, unit) * unit - n);
            &&& -unit <= off <= unit
            &&& off == unit || off == -unit ==> nearest(n, unit) % 2 == 0
        }),
{
    let (q, r) = (n / unit, n % unit);
    assert(n == q * unit + r && r < unit) by (nonlinear_arith)
        requires
            unit > 0,
            q == n / unit,
            r == n % unit,
    ;
    assert((q + 1) * unit == q * unit + unit) by (nonlinear_arith);
}

} // verus!
