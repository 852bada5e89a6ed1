//! Figures for people to read.
//!
//! A ratio is first taken to 53 binary digits and the outcome then to a few
//! decimals, each time to the nearest and, halfway, to the even neighbour. The
//! first step can be seen in the second: 500 nanoseconds are a little more than
//! half a thousandth of a millisecond in binary, and 350 milliseconds a little
//! less than three and a half tenths of a second.

use crate::count::{nearest, round_even};
use crate::text::{decimal, digit, digit_str, wide_str};
use vstd::arithmetic::power2::{
    lemma2_to64, lemma2_to64_rest, lemma_pow2_adds, lemma_pow2_pos, lemma_pow2_strictly_increases,
    lemma_pow2_unfold, pow2,
};
use vstd::prelude::*;

verus! {

/// The least number of 53 binary digits.
pub const LEAST: u128 = 4_503_599_627_370_496;

/// The least number of 54 binary digits.
pub const OVER: u128 = 9_007_199_254_740_992;

/// The number `digits * 2^exp`.
pub struct Binary {
    pub digits: nat,
    pub exp: int,
}

/// The ratio `n / d`, times `2^exp`, where it has at most 53 digits before the
/// point: moved up until it has 53, then rounded.
pub open spec fn moved_up(n: nat, d: nat, exp: int) -> Binary
    decreases OVER * d - n,
{
    if 0 < n < LEAST * d {
        moved_up(2 * n, d, exp - 1)
    } else {
        Binary { digits: nearest(n, d), exp }
    }
}

/// The ratio `n / d`, times `2^exp`: moved down until it has no more than 53
/// digits before the point, then rounded.
pub open spec fn moved_down(n: nat, d: nat, exp: int) -> Binary
    decreases n - d,
{
    if d > 0 && n >= OVER * d {
        moved_down(n, 2 * d, exp + 1)
    } else {
        Binary { digits: nearest(n, d), exp }
    }
}

/// The number of 53 binary digits nearest to `n`.
pub open spec fn whole(n: nat) -> Binary {
    moved_down(n, 1, 0)
}

/// The number of 53 binary digits nearest to `n / d`.
pub open spec fn ratio(n: nat, d: nat) -> Binary {
    if n < OVER * d {
        moved_up(n, d, 0)
    } else {
        moved_down(n, d, 0)
    }
}

impl Binary {
    /// The quotient of two numbers, to 53 binary digits.
    pub open spec fn over(self, other: Binary) -> Binary {
        let q = ratio(self.digits, other.digits);
        Binary { digits: q.digits, exp: q.exp + self.exp - other.exp }
    }

    /// A number below one, added to a whole one, to 53 binary digits.
    pub open spec fn onto(self, n: nat) -> Binary {
        let q = whole(n * pow2((0 - self.exp) as nat) + self.digits);
        Binary { digits: q.digits, exp: q.exp + self.exp }
    }

    /// How many of `scale` equal parts of one the number is nearest to, as far
    /// as there are machine numbers.
    pub open spec fn parts(self, scale: nat) -> nat {
        if self.exp < 0 {
            nearest(self.digits * scale, pow2((0 - self.exp) as nat))
        } else {
            let n = self.digits * scale * pow2(self.exp as nat);
            if n > u128::MAX {
                u128::MAX as nat
            } else {
                n
            }
        }
    }
}

/// A count over a unit, each taken to 53 binary digits first.
pub open spec fn share(n: nat, unit: nat) -> Binary {
    whole(n).over(whole(unit))
}

/// A time in seconds.
pub open spec fn seconds(nanos: nat) -> Binary {
    share(nanos % 1_000_000_000, 1_000_000_000).onto(nanos / 1_000_000_000)
}

/// How often something happens in a second; no time counts as the shortest
/// there is.
pub open spec fn rate(n: nat, nanos: nat) -> Binary {
    whole(n).over(
        seconds(
            if nanos == 0 {
                1
            } else {
                nanos
            },
        ),
    )
}

/// A number without decimals.
pub open spec fn ones_text(v: Binary) -> Seq<char> {
    decimal(v.parts(1))
}

/// A number to one decimal.
pub open spec fn tenths_text(v: Binary) -> Seq<char> {
    let n = v.parts(10);
    decimal(n / 10) + "."@ + digit(n % 10)
}

/// A number to three decimals.
pub open spec fn thousandths_text(v: Binary) -> Seq<char> {
    let n = v.parts(1000);
    decimal(n / 1000) + "."@ + digit(n / 100 % 10) + digit(n / 10 % 10) + digit(n % 10)
}

/// A number `digits * 2^exp` as it is computed with.
#[derive(Clone, Copy)]
pub struct Scaled {
    digits: u64,
    exp: i64,
}

impl View for Scaled {
    type V = Binary;

    closed spec fn view(&self) -> Binary {
        Binary { digits: self.digits as nat, exp: self.exp as int }
    }
}

proof fn lemma_wide()
    ensures
        pow2(128) == u128::MAX + 1,
        pow2(52) == LEAST,
        pow2(53) == OVER,
        pow2(0) == 1,
{
    lemma2_to64();
    lemma2_to64_rest();
    lemma_pow2_adds(64, 64);
    lemma_pow2_adds(32, 20);
    lemma_pow2_adds(32, 21);
}

/// A power of two that is a machine number has a small exponent.
proof fn lemma_small(k: nat)
    requires
        pow2(k) <= u128::MAX,
    ensures
        k < 128,
{
    lemma_wide();
    if k > 128 {
        lemma_pow2_strictly_increases(128, k);
    }
}

proof fn lemma_nearest_bound(n: nat, d: nat, most: nat)
    requires
        d > 0,
        n < most * d,
    ensures
        nearest(n, d) <= most,
{
    assert(n / d < most) by (nonlinear_arith)
        requires
            d > 0,
            n < most * d,
    ;
}

proof fn lemma_nearest_positive(n: nat, d: nat)
    requires
        0 < d <= n,
    ensures
        nearest(n, d) > 0,
{
    assert(n / d > 0) by (nonlinear_arith)
        requires
            0 < d <= n,
    ;
}

fn move_up(n: u128, d: u128) -> (r: Scaled)
    requires
        0 < d <= u64::MAX,
        n < OVER * d,
    ensures
        r@ == moved_up(n as nat, d as nat, 0),
        r@.digits <= OVER,
        -128 <= r@.exp <= 0,
        r@.exp < 0 ==> pow2((0 - r@.exp) as nat) < OVER * d,
        n > 0 ==> r@.digits > 0,
{
    assert(OVER * d <= OVER * u64::MAX) by (nonlinear_arith)
        requires
            d <= u64::MAX,
    ;
    let least: u128 = LEAST * d;
    let mut m: u128 = n;
    let mut k: i64 = 0;
    proof {
        lemma_wide();
    }
    while 0 < m && m < least
        invariant
            d > 0,
            least == LEAST * d,
            OVER * d == 2 * least,
            OVER * d <= OVER * u64::MAX,
            0 <= k <= 128,
            m < OVER * d,
            n > 0 ==> m > 0,
            m > 0 ==> pow2(k as nat) <= m,
            k > 0 ==> pow2(k as nat) < OVER * d,
            moved_up(n as nat, d as nat, 0) == moved_up(m as nat, d as nat, 0 - k),
        decreases 2 * least - m,
    {
        proof {
            lemma_small(k as nat);
            lemma_pow2_unfold((k + 1) as nat);
        }
        m = 2 * m;
        k = k + 1;
    }
    proof {
        lemma_nearest_bound(m as nat, d as nat, OVER as nat);
        if n > 0 {
            assert(LEAST * d >= d) by (nonlinear_arith)
                requires
                    d > 0,
            ;
            lemma_nearest_positive(m as nat, d as nat);
        }
    }
    Scaled { digits: round_even(m, d) as u64, exp: 0 - k }
}

fn move_down(n: u128, d: u128) -> (r: Scaled)
    requires
        0 < d <= u64::MAX,
        n < 0x1000_0000_0000_0000_0000_0000_0000_0000,
    ensures
        r@ == moved_down(n as nat, d as nat, 0),
        r@.digits <= OVER,
        0 <= r@.exp <= 128,
        n >= d ==> r@.digits > 0,
{
    let mut e: u128 = d;
    let mut k: i64 = 0;
    proof {
        lemma_wide();
    }
    assert(OVER * e <= OVER * u64::MAX) by (nonlinear_arith)
        requires
            e <= u64::MAX,
    ;
    while n >= OVER * e
        invariant
            e > 0,
            n < 0x1000_0000_0000_0000_0000_0000_0000_0000,
            OVER * e <= 0x2000_0000_0000_0000_0000_0000_0000_0000,
            0 <= k <= 128,
            pow2(k as nat) <= e,
            n >= d ==> n >= e,
            moved_down(n as nat, d as nat, 0) == moved_down(n as nat, e as nat, k as int),
        decreases n - e,
    {
        proof {
            lemma_small(k as nat);
            lemma_pow2_unfold((k + 1) as nat);
        }
        e = 2 * e;
        k = k + 1;
    }
    proof {
        lemma_nearest_bound(n as nat, e as nat, OVER as nat);
        if n >= d {
            lemma_nearest_positive(n as nat, e as nat);
        }
    }
    Scaled { digits: round_even(n, e) as u64, exp: k }
}

/// The number of 53 binary digits nearest to `n`.
fn whole_of(n: u128) -> (r: Scaled)
    requires
        n < 0x1000_0000_0000_0000_0000_0000_0000_0000,
    ensures
        r@ == whole(n as nat),
        r@.digits <= OVER,
        0 <= r@.exp <= 128,
        n > 0 ==> r@.digits > 0,
{
    move_down(n, 1)
}

/// The number of 53 binary digits nearest to `n / d`.
fn ratio_of(n: u64, d: u64) -> (r: Scaled)
    requires
        d > 0,
    ensures
        r@ == ratio(n as nat, d as nat),
        r@.digits <= OVER,
        -128 <= r@.exp <= 128,
        n > 0 ==> r@.digits > 0,
        n < OVER * d ==> r@.exp <= 0 && (r@.exp < 0 ==> pow2((0 - r@.exp) as nat) < OVER * d),
{
    assert(OVER * d <= OVER * u64::MAX) by (nonlinear_arith)
        requires
            d <= u64::MAX,
    ;
    if (n as u128) < OVER * (d as u128) {
        move_up(n as u128, d as u128)
    } else {
        assert(OVER * d >= d) by (nonlinear_arith)
            requires
                d > 0,
        ;
        move_down(n as u128, d as u128)
    }
}

/// `2^k`.
fn two_to(k: i64) -> (r: u128)
    requires
        0 <= k,
        pow2(k as nat) <= u128::MAX,
    ensures
        r == pow2(k as nat),
{
    let mut r: u128 = 1;
    let mut i: i64 = 0;
    proof {
        lemma_wide();
    }
    while i < k
        invariant
            0 <= i <= k,
            r == pow2(i as nat),
            pow2(k as nat) <= u128::MAX,
        decreases k - i,
    {
        proof {
            lemma_pow2_unfold((i + 1) as nat);
            if i + 1 < k {
                lemma_pow2_strictly_increases((i + 1) as nat, k as nat);
            }
        }
        r = 2 * r;
        i = i + 1;
    }
    r
}

/// `n / 2^k`, rounded.
fn round_off(n: u128, k: i64) -> (r: u128)
    requires
        n <= OVER * 1000,
        k > 0,
    ensures
        r == nearest(n as nat, pow2(k as nat)),
{
    proof {
        lemma_wide();
        lemma_pow2_unfold(128);
    }
    if k < 128 {
        proof {
            if k < 127 {
                lemma_pow2_strictly_increases(k as nat, 127);
            }
            lemma_pow2_pos(k as nat);
        }
        round_even(n, two_to(k))
    } else {
        proof {
            if k > 128 {
                lemma_pow2_strictly_increases(128, k as nat);
            }
            let unit = pow2(k as nat);
            assert(n as nat / unit == 0 && n as nat % unit == n) by (nonlinear_arith)
                requires
                    n < unit,
            ;
        }
        0
    }
}

/// `n * 2^k`, as far as there are machine numbers.
fn scale_up(n: u128, k: i64) -> (r: u128)
    requires
        k >= 0,
    ensures
        r == ({
            let all = n as nat * pow2(k as nat);
            if all > u128::MAX {
                u128::MAX as nat
            } else {
                all
            }
        }),
{
    let mut x: u128 = n;
    let mut left: i64 = k;
    proof {
        lemma_wide();
    }
    while left > 0
        invariant
            0 <= left <= k,
            pow2(0) == 1,
            x as nat * pow2(left as nat) == n as nat * pow2(k as nat),
        decreases left,
    {
        proof {
            lemma_pow2_unfold(left as nat);
            lemma_pow2_pos((left - 1) as nat);
            let p = pow2((left - 1) as nat);
            assert(x as nat * (2 * p) == (2 * x) as nat * p) by (nonlinear_arith);
            assert((2 * x) as nat * p >= 2 * x) by (nonlinear_arith)
                requires
                    p > 0,
            ;
        }
        if x > u128::MAX / 2 {
            return u128::MAX;
        }
        x = 2 * x;
        left = left - 1;
    }
    assert(x as nat * 1 == x);
    x
}

impl Scaled {
    /// Whether both parts are small enough to go on with.
    pub closed spec fn wf(self) -> bool {
        self.digits <= OVER && -1000 <= self.exp <= 1000
    }

    fn over_of(self, other: Scaled) -> (r: Scaled)
        requires
            0 < other@.digits,
            -300 <= self@.exp <= 300,
            -300 <= other@.exp <= 300,
        ensures
            r@ == self@.over(other@),
            r.wf(),
    {
        let q = ratio_of(self.digits, other.digits);
        Scaled { digits: q.digits, exp: q.exp + self.exp - other.exp }
    }

    /// How many of `scale` equal parts of one the number is nearest to.
    fn parts_of(self, scale: u64) -> (r: u128)
        requires
            self.wf(),
            scale <= 1000,
        ensures
            r == self@.parts(scale as nat),
    {
        assert(self.digits * scale <= OVER * 1000) by (nonlinear_arith)
            requires
                self.digits <= OVER,
                scale <= 1000,
        ;
        let n: u128 = (self.digits as u128) * (scale as u128);
        proof {
            lemma_wide();
        }
        if self.exp < 0 {
            round_off(n, 0 - self.exp)
        } else {
            scale_up(n, self.exp)
        }
    }
}

proof fn lemma_whole_small(n: nat)
    requires
        n < OVER,
    ensures
        whole(n) == (Binary { digits: n, exp: 0 }),
{
}

/// A count over a unit.
pub fn share_of(n: u64, unit: u64) -> (r: Scaled)
    requires
        unit > 0,
    ensures
        r@ == share(n as nat, unit as nat),
        r.wf(),
{
    whole_of(n as u128).over_of(whole_of(unit as u128))
}

/// A time in seconds.
pub fn seconds_of(nanos: u64) -> (r: Scaled)
    ensures
        r@ == seconds(nanos as nat),
        r.wf(),
        nanos > 0 ==> r@.digits > 0,
        -300 <= r@.exp <= 300,
{
    let n: u64 = nanos / 1_000_000_000;
    let rest: u64 = nanos % 1_000_000_000;
    proof {
        lemma_wide();
        lemma_whole_small(rest as nat);
        lemma_whole_small(1_000_000_000);
    }
    let f = ratio_of(rest, 1_000_000_000);
    let unit: u128 = two_to(0 - f.exp);
    assert(n * unit <= 18_446_744_074 * (OVER * 1_000_000_000)) by (nonlinear_arith)
        requires
            n <= 18_446_744_074,
            unit <= OVER * 1_000_000_000,
            0 <= n,
            0 <= unit,
    ;
    proof {
        lemma_pow2_pos((0 - f@.exp) as nat);
        if nanos > 0 && n > 0 {
            assert(n * unit > 0) by (nonlinear_arith)
                requires
                    n > 0,
                    unit > 0,
            ;
        }
    }
    let q = whole_of((n as u128) * unit + f.digits as u128);
    Scaled { digits: q.digits, exp: q.exp + f.exp }
}

/// How often something happens in a second.
pub fn rate_of(n: u64, nanos: u64) -> (r: Scaled)
    ensures
        r@ == rate(n as nat, nanos as nat),
        r.wf(),
{
    let time = if nanos == 0 {
        seconds_of(1)
    } else {
        seconds_of(nanos)
    };
    whole_of(n as u128).over_of(time)
}

/// Append a number without decimals.
pub fn put_ones(s: &mut String, v: Scaled)
    requires
        v.wf(),
    ensures
        final(s)@ == old(s)@ + ones_text(v@),
{
    s.append(wide_str(v.parts_of(1)).as_str());
}

/// Append a number to one decimal.
pub fn put_tenths(s: &mut String, v: Scaled)
    requires
        v.wf(),
    ensures
        final(s)@ == old(s)@ + tenths_text(v@),
{
    let n: u128 = v.parts_of(10);
    s.append(wide_str(n / 10).as_str());
    s.append(".");
    s.append(digit_str((n % 10) as u64));
    assert(s@ =~= old(s)@ + tenths_text(v@));
}

/// Append a number to three decimals.
pub fn put_thousandths(s: &mut String, v: Scaled)
    requires
        v.wf(),
    ensures
        final(s)@ == old(s)@ + thousandths_text(v@),
{
    let n: u128 = v.parts_of(1000);
    s.append(wide_str(n / 1000).as_str());
    s.append(".");
    s.append(digit_str((n / 100 % 10) as u64));
    s.append(digit_str((n / 10 % 10) as u64));
    s.append(digit_str((n % 10) as u64));
    assert(s@ =~= old(s)@ + thousandths_text(v@));
}

} // verus!
