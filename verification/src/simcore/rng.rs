//! Deterministic pseudo-random number generation.
//!
//! Every non-deterministic choice in the simulator flows through this type.
//! The algorithm is xoshiro256++ seeded through SplitMix64; it is stable
//! across platforms and Rust versions, which is what makes a seed a durable
//! bug report. Nothing here touches the OS, the clock, or thread-local state.

use crate::bytes::{le_u64, put_u64};
use crate::count::widen_product;
use vstd::prelude::*;

verus! {

/// A deterministic random source.
#[derive(Clone, Copy, Debug, PartialEq, Eq, Structural)]
pub struct Rng {
    pub s0: u64,
    pub s1: u64,
    pub s2: u64,
    pub s3: u64,
}

/// `x` rotated left by `k` bits.
pub open spec fn rotated(x: u64, k: u64) -> u64 {
    (x << k) | (x >> ((64 - k) as u64))
}

fn rotate(x: u64, k: u64) -> (r: u64)
    requires
        0 < k < 64,
    ensures
        r == rotated(x, k),
{
    (x << k) | (x >> (64 - k))
}

/// SplitMix64's output for an internal state.
pub open spec fn splitmix(state: u64) -> u64 {
    let a = (state ^ (state >> 30)).wrapping_mul(0xBF58_476D_1CE4_E5B9);
    let b = (a ^ (a >> 27)).wrapping_mul(0x94D0_49BB_1331_11EB);
    b ^ (b >> 31)
}

/// SplitMix64's next internal state.
pub open spec fn splitmix_next(state: u64) -> u64 {
    state.wrapping_add(0x9E37_79B9_7F4A_7C15)
}

fn splitmix_out(state: u64) -> (r: u64)
    ensures
        r == splitmix(state),
{
    let a: u64 = (state ^ (state >> 30)).wrapping_mul(0xBF58_476D_1CE4_E5B9);
    let b: u64 = (a ^ (a >> 27)).wrapping_mul(0x94D0_49BB_1331_11EB);
    b ^ (b >> 31)
}

/// Two to the power of 64.
pub const WORD: u128 = 18_446_744_073_709_551_616;

/// How many draws [`Rng::below`] rejects before it settles for a biased one.
/// With the generator's period no sequence of rejections comes near it.
pub const REJECTIONS: u64 = 18_446_744_073_709_551_615;

impl Rng {
    /// The generator that a seed names.
    pub open spec fn seeded(seed: u64) -> Rng {
        let a = splitmix_next(seed);
        let b = splitmix_next(a);
        let c = splitmix_next(b);
        let d = splitmix_next(c);
        Rng { s0: splitmix(a), s1: splitmix(b), s2: splitmix(c), s3: splitmix(d) }
    }

    /// The next number.
    pub open spec fn draw(self) -> u64 {
        rotated(self.s0.wrapping_add(self.s3), 23).wrapping_add(self.s0)
    }

    /// The generator after one number was drawn.
    pub open spec fn stepped(self) -> Rng {
        let a = self.s2 ^ self.s0;
        let b = self.s3 ^ self.s1;
        Rng {
            s0: self.s0 ^ b,
            s1: self.s1 ^ a,
            s2: a ^ (self.s1 << 17),
            s3: rotated(b, 45),
        }
    }

    /// Lemire's method: scale draws to `[0, n)`, rejecting those whose low
    /// half falls below the threshold.
    pub open spec fn scaled(self, n: u64, threshold: u64, left: u64) -> (u64, Rng)
        decreases left,
    {
        let m = self.draw() * n;
        if m % (WORD as int) >= threshold || left == 0 {
            ((m / (WORD as int)) as u64, self.stepped())
        } else {
            self.stepped().scaled(n, threshold, (left - 1) as u64)
        }
    }

    /// A uniform number in `[0, n)`, and the generator after it.
    pub open spec fn below_of(self, n: u64) -> (u64, Rng) {
        if n <= 1 {
            (0, self)
        } else {
            self.scaled(n, ((WORD - n) % (n as int)) as u64, REJECTIONS)
        }
    }

    /// A uniform number in `[lo, hi]`.
    pub open spec fn range_of(self, lo: u64, hi: u64) -> (u64, Rng) {
        if hi <= lo {
            (lo, self)
        } else if hi - lo == u64::MAX {
            (self.draw(), self.stepped())
        } else {
            let (v, r) = self.below_of((hi - lo + 1) as u64);
            ((lo + v) as u64, r)
        }
    }

    /// True with probability `ppm / 1_000_000`.
    pub open spec fn chance_of(self, ppm: u32) -> (bool, Rng) {
        if ppm == 0 {
            (false, self)
        } else if ppm >= 1_000_000 {
            (true, self)
        } else {
            let (v, r) = self.below_of(1_000_000);
            (v < ppm, r)
        }
    }

    /// A number in `[lo, hi]`, biased toward `lo`.
    pub open spec fn skewed_of(self, lo: u64, hi: u64) -> (u64, Rng) {
        if hi <= lo {
            (lo, self)
        } else {
            let (a, r) = self.upto_of((hi - lo) as u64);
            let (b, q) = r.upto_of((hi - lo) as u64);
            ((lo + if a < b {
                a
            } else {
                b
            }) as u64, q)
        }
    }

    /// A uniform number in `[0, max]`.
    pub open spec fn upto_of(self, max: u64) -> (u64, Rng) {
        self.range_of(0, max)
    }

    /// `items` after Fisher-Yates went down from place `i` to place 1.
    pub open spec fn shuffled<T>(self, items: Seq<T>, i: int) -> (Seq<T>, Rng)
        decreases i,
    {
        if i <= 0 || i >= items.len() {
            (items, self)
        } else {
            let (j, r) = self.below_of((i + 1) as u64);
            r.shuffled(items.update(i, items[j as int]).update(j as int, items[i]), i - 1)
        }
    }

    /// `n` random bytes.
    pub open spec fn bytes_of(self, n: nat) -> (Seq<u8>, Rng)
        decreases n,
    {
        if n == 0 {
            (Seq::empty(), self)
        } else if n < 8 {
            (le_u64(self.draw()).take(n as int), self.stepped())
        } else {
            let (rest, r) = self.stepped().bytes_of((n - 8) as nat);
            (le_u64(self.draw()) + rest, r)
        }
    }

    /// Create a generator from a seed. The same seed always yields the same
    /// stream, on every machine.
    pub fn new(seed: u64) -> (r: Rng)
        ensures
            r == Rng::seeded(seed),
    {
        let a: u64 = seed.wrapping_add(0x9E37_79B9_7F4A_7C15);
        let b: u64 = a.wrapping_add(0x9E37_79B9_7F4A_7C15);
        let c: u64 = b.wrapping_add(0x9E37_79B9_7F4A_7C15);
        let d: u64 = c.wrapping_add(0x9E37_79B9_7F4A_7C15);
        Rng {
            s0: splitmix_out(a),
            s1: splitmix_out(b),
            s2: splitmix_out(c),
            s3: splitmix_out(d),
        }
    }

    /// Derive an independent child generator. Used to give each node its own
    /// stream so that adding a node does not perturb the others' draws.
    pub fn fork(&mut self, label: u64) -> (r: Rng)
        ensures
            *final(self) == old(self).stepped(),
            r == Rng::seeded(old(self).draw() ^ label.wrapping_mul(0xD6E8_FEB8_6659_FD93)),
    {
        let mixed: u64 = self.next_u64() ^ label.wrapping_mul(0xD6E8_FEB8_6659_FD93);
        Rng::new(mixed)
    }

    pub fn next_u64(&mut self) -> (r: u64)
        ensures
            r == old(self).draw(),
            *final(self) == old(self).stepped(),
    {
        let sum: u64 = self.s0.wrapping_add(self.s3);
        let result: u64 = rotate(sum, 23).wrapping_add(self.s0);
        let t: u64 = self.s1 << 17;
        self.s2 = self.s2 ^ self.s0;
        self.s3 = self.s3 ^ self.s1;
        self.s1 = self.s1 ^ self.s2;
        self.s0 = self.s0 ^ self.s3;
        self.s2 = self.s2 ^ t;
        self.s3 = rotate(self.s3, 45);
        result
    }

    pub fn next_u32(&mut self) -> (r: u32)
        ensures
            r == (old(self).draw() >> 32) as u32,
            *final(self) == old(self).stepped(),
    {
        (self.next_u64() >> 32) as u32
    }

    /// Uniform in `[0, n)`. Unbiased (Lemire's method with rejection).
    /// Returns 0 when `n == 0`.
    pub fn below(&mut self, n: u64) -> (r: u64)
        ensures
            (r, *final(self)) == old(self).below_of(n),
            n > 0 ==> r < n,
            n == 0 ==> r == 0,
    {
        if n <= 1 {
            return 0;
        }
        proof {
            law_below_in_range(*self, n);
        }
        // Rejection sampling on the 128-bit product keeps the distribution
        // exactly uniform; biased modulo would skew rare-fault probabilities.
        let threshold: u64 = (u64::MAX - n + 1) % n;
        let mut left: u64 = REJECTIONS;
        loop
            invariant
                n > 1,
                threshold == (WORD - n) % (n as int),
                old(self).below_of(n) == self.scaled(n, threshold, left),
                old(self).below_of(n).0 < n,
            decreases left,
        {
            let x: u64 = self.next_u64();
            let m: u128 = widen_product(x, n);
            let low: u64 = (m % WORD) as u64;
            if low >= threshold || left == 0 {
                proof {
                    lemma_high_half(x, n);
                }
                return (m / WORD) as u64;
            }
            left = left - 1;
        }
    }

    /// Uniform in `[lo, hi]`, inclusive. `lo > hi` yields `lo`.
    pub fn range(&mut self, lo: u64, hi: u64) -> (r: u64)
        ensures
            (r, *final(self)) == old(self).range_of(lo, hi),
            lo <= r,
            lo <= hi ==> r <= hi,
    {
        if hi <= lo {
            return lo;
        }
        if hi - lo == u64::MAX {
            return self.next_u64();
        }
        lo + self.below(hi - lo + 1)
    }

    /// True with probability `ppm / 1_000_000`.
    ///
    /// Probabilities are parts-per-million integers rather than floats so the
    /// decision is bit-exact everywhere.
    pub fn chance_ppm(&mut self, ppm: u32) -> (r: bool)
        ensures
            (r, *final(self)) == old(self).chance_of(ppm),
    {
        if ppm == 0 {
            return false;
        }
        if ppm >= 1_000_000 {
            return true;
        }
        self.below(1_000_000) < ppm as u64
    }

    /// Uniform index into a slice of `len` items, or `None` if empty.
    pub fn index(&mut self, len: usize) -> (r: Option<usize>)
        ensures
            len == 0 ==> r is None && *final(self) == *old(self),
            len > 0 ==> r is Some && r->Some_0 < len && (r->Some_0 as u64, *final(self)) == old(
                self,
            ).below_of(len as u64),
    {
        if len == 0 {
            None
        } else {
            Some(self.below(len as u64) as usize)
        }
    }

    /// A uniformly chosen item, or `None` if there is none.
    pub fn pick<'a, T>(&mut self, items: &'a [T]) -> (r: Option<&'a T>)
        ensures
            items@.len() == 0 ==> r is None && *final(self) == *old(self),
            items@.len() > 0 ==> ({
                let (i, next) = old(self).below_of(items@.len() as u64);
                &&& i < items@.len()
                &&& r == Some(&items@[i as int])
                &&& *final(self) == next
            }),
    {
        match self.index(items.len()) {
            Some(i) => Some(&items[i]),
            None => None,
        }
    }

    /// In-place Fisher-Yates.
    pub fn shuffle<T>(&mut self, items: &mut Vec<T>)
        ensures
            (final(items)@, *final(self)) == old(self).shuffled(
                old(items)@,
                old(items)@.len() - 1,
            ),
            final(items)@.to_multiset() == old(items)@.to_multiset(),
    {
        let ghost whole = self.shuffled(items@, items@.len() - 1);
        let n: usize = items.len();
        if n == 0 {
            return;
        }
        let mut i: usize = n - 1;
        while i > 0
            invariant
                i < n,
                n == items@.len(),
                items@.len() == old(items)@.len(),
                items@.to_multiset() == old(items)@.to_multiset(),
                self.shuffled(items@, i as int) == whole,
            decreases i,
        {
            let ghost before = items@;
            let j: usize = self.below(i as u64 + 1) as usize;
            swap_items(items, j, i);
            proof {
                lemma_swap_multiset(before, j as int, i as int);
            }
            i -= 1;
        }
    }

    /// Fill a buffer with random bytes.
    pub fn fill(&mut self, buf: &mut Vec<u8>)
        ensures
            (final(buf)@, *final(self)) == old(self).bytes_of(old(buf)@.len()),
    {
        let n: usize = buf.len();
        let mut out: Vec<u8> = Vec::new();
        while n - out.len() >= 8
            invariant
                out@.len() <= n,
                ({
                    let (rest, r) = self.bytes_of((n - out@.len()) as nat);
                    old(self).bytes_of(n as nat) == (out@ + rest, r)
                }),
            decreases n - out@.len(),
        {
            let ghost before = out@;
            let ghost from = *self;
            let v: u64 = self.next_u64();
            put_u64(&mut out, v);
            proof {
                let (rest, r) = self.bytes_of((n - out@.len()) as nat);
                assert(before + (le_u64(v) + rest) =~= out@ + rest);
            }
        }
        if out.len() < n {
            let v: u64 = self.next_u64();
            let mut tail: Vec<u8> = Vec::new();
            put_u64(&mut tail, v);
            tail.truncate(n - out.len());
            let ghost before = out@;
            out.append(&mut tail);
            assert(out@ =~= before + le_u64(v).take(n - before.len()));
        } else {
            assert(out@ + Seq::<u8>::empty() =~= out@);
        }
        *buf = out;
    }

    /// Draw from a rough exponential-ish distribution over `[lo, hi]` biased
    /// toward `lo`. Real network latency has a long tail; a flat distribution
    /// hides the timing-sensitive bugs that only a tail exposes.
    pub fn skewed(&mut self, lo: u64, hi: u64) -> (r: u64)
        ensures
            (r, *final(self)) == old(self).skewed_of(lo, hi),
            lo <= r,
            lo <= hi ==> r <= hi,
    {
        if hi <= lo {
            return lo;
        }
        let span: u64 = hi - lo;
        // Minimum of two draws: a cheap, allocation-free way to bias low while
        // still reaching the tail often enough to matter.
        let a: u64 = self.range(0, span);
        let b: u64 = self.range(0, span);
        lo + (if a < b {
            a
        } else {
            b
        })
    }
}

proof fn lemma_high_half(x: u64, n: u64)
    requires
        n > 0,
    ensures
        (x * n) / (WORD as int) < n,
        0 <= (x * n) / (WORD as int) <= u64::MAX,
{
    assert(0 <= x * n < WORD * n) by (nonlinear_arith)
        requires
            0 <= x < WORD,
            0 < n,
    ;
    assert((x * n) / (WORD as int) < n) by (nonlinear_arith)
        requires
            0 <= x * n < WORD * n,
            WORD > 0,
    ;
    assert(0 <= (x * n) / (WORD as int)) by (nonlinear_arith)
        requires
            0 <= x * n,
            WORD > 0,
    ;
}

proof fn lemma_scaled(r: Rng, n: u64, threshold: u64, left: u64)
    requires
        n > 0,
    ensures
        r.scaled(n, threshold, left).0 < n,
    decreases left,
{
    lemma_high_half(r.draw(), n);
    let m = r.draw() * n;
    if !(m % (WORD as int) >= threshold || left == 0) {
        lemma_scaled(r.stepped(), n, threshold, (left - 1) as u64);
    }
}

/// A number drawn below `n` is below `n`.
pub proof fn law_below_in_range(r: Rng, n: u64)
    ensures
        n > 0 ==> r.below_of(n).0 < n,
        n == 0 ==> r.below_of(n).0 == 0,
{
    if n > 1 {
        lemma_scaled(r, n, ((WORD - n) % (n as int)) as u64, REJECTIONS);
    }
}

/// A number drawn from a range lies in it.
pub proof fn law_range_in_bounds(r: Rng, lo: u64, hi: u64)
    ensures
        lo <= r.range_of(lo, hi).0,
        lo <= hi ==> r.range_of(lo, hi).0 <= hi,
        lo <= r.skewed_of(lo, hi).0,
        lo <= hi ==> r.skewed_of(lo, hi).0 <= hi,
{
    if hi > lo {
        if hi - lo < u64::MAX {
            law_below_in_range(r, (hi - lo + 1) as u64);
        }
        lemma_upto(r, (hi - lo) as u64);
        lemma_upto(r.upto_of((hi - lo) as u64).1, (hi - lo) as u64);
    }
}

proof fn lemma_upto(r: Rng, max: u64)
    ensures
        r.upto_of(max).0 <= max,
{
    if 0 < max < u64::MAX {
        law_below_in_range(r, (max + 1) as u64);
    }
}

/// Chances of nothing and of everything are certain and draw no number.
pub proof fn law_chance_bounds(r: Rng, ppm: u32)
    ensures
        ppm == 0 ==> r.chance_of(ppm) == (false, r),
        ppm >= 1_000_000 ==> r.chance_of(ppm) == (true, r),
{
}

/// Exchange two items.
fn swap_items<T>(items: &mut Vec<T>, j: usize, i: usize)
    requires
        j <= i < old(items)@.len(),
    ensures
        final(items)@ == old(items)@.update(i as int, old(items)@[j as int]).update(
            j as int,
            old(items)@[i as int],
        ),
{
    if j < i {
        let high = items.remove(i);
        items.insert(j, high);
        let low = items.remove(j + 1);
        items.insert(i, low);
    }
    assert(items@ =~= old(items)@.update(i as int, old(items)@[j as int]).update(
        j as int,
        old(items)@[i as int],
    ));
}

proof fn lemma_swap_multiset<T>(s: Seq<T>, j: int, i: int)
    requires
        0 <= j <= i < s.len(),
    ensures
        s.update(i, s[j]).update(j, s[i]).to_multiset() == s.to_multiset(),
{
    broadcast use vstd::seq_lib::group_to_multiset_ensures;

    let t = s.update(i, s[j]);
    assert(t.to_multiset() =~= s.to_multiset().insert(s[j]).remove(s[i]));
    assert(t.update(j, s[i]).to_multiset() =~= t.to_multiset().insert(s[i]).remove(t[j]));
    assert(s.to_multiset().count(s[i]) > 0) by {
        assert(s.contains(s[i]));
    }
    assert(s.to_multiset().count(s[j]) > 0) by {
        assert(s.contains(s[j]));
    }
    assert(t.update(j, s[i]).to_multiset() =~= s.to_multiset());
}

proof fn lemma_shuffle<T>(r: Rng, s: Seq<T>, i: int)
    requires
        i < s.len() <= u64::MAX,
    ensures
        r.shuffled(s, i).0.to_multiset() == s.to_multiset(),
        r.shuffled(s, i).0.len() == s.len(),
    decreases i,
{
    if i > 0 {
        let (j, q) = r.below_of((i + 1) as u64);
        law_below_in_range(r, (i + 1) as u64);
        lemma_swap_multiset(s, j as int, i);
        lemma_shuffle(q, s.update(i, s[j as int]).update(j as int, s[i]), i - 1);
    }
}

/// A shuffled list holds the same items as before, each as often.
pub proof fn law_shuffle_permutes<T>(r: Rng, s: Seq<T>)
    requires
        s.len() <= u64::MAX,
    ensures
        r.shuffled(s, s.len() - 1).0.to_multiset() == s.to_multiset(),
        r.shuffled(s, s.len() - 1).0.len() == s.len(),
{
    if s.len() > 0 {
        lemma_shuffle(r, s, s.len() - 1);
    }
}

} // verus!
