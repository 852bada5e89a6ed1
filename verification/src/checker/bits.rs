//! Sets of small integers as machine words.

use vstd::prelude::*;

verus! {

/// Whether member `i` is in the set.
pub open spec fn bit(w: Seq<u64>, i: int) -> bool {
    (w[i / 64] >> ((i % 64) as u64)) & 1 == 1
}

/// The members below `n`.
pub open spec fn members(w: Seq<u64>, n: nat) -> Set<int> {
    Set::new(|i: int| 0 <= i < n && bit(w, i))
}

/// Whether the words are as many as `n` members need, with no stray bits.
pub open spec fn clean(w: Seq<u64>, n: nat) -> bool {
    &&& w.len() == (n + 63) / 64
    &&& forall|i: int| n <= i < 64 * w.len() ==> !#[trigger] bit(w, i)
}

proof fn lemma_low_bits(x: u64, y: u64, k: u64)
    requires
        k < 64,
        forall|c: u64| c <= k ==> #[trigger] ((x >> c) & 1) == (y >> c) & 1,
    ensures
        x << ((63 - k) as u64) == y << ((63 - k) as u64),
    decreases k,
{
    assert((x >> k) & 1 == (y >> k) & 1);
    if k == 0 {
        assert((x >> 0u64) & 1 == (y >> 0u64) & 1 ==> x << 63u64 == y << 63u64) by (bit_vector);
    } else {
        let (d, e) = ((63 - k) as u64, (64 - k) as u64);
        lemma_low_bits(x, y, (k - 1) as u64);
        assert(0 < k < 64 && d == 63 - k && e == 64 - k && x << e == y << e && (x >> k) & 1 == (y
            >> k) & 1 ==> x << d == y << d) by (bit_vector);
    }
}

/// Two clean sets with the same members are the same words.
pub proof fn lemma_members_injective(a: Seq<u64>, b: Seq<u64>, n: nat)
    requires
        clean(a, n),
        clean(b, n),
        members(a, n) == members(b, n),
    ensures
        a == b,
{
    assert forall|k: int| 0 <= k < a.len() implies a[k] == b[k] by {
        assert forall|c: u64| c <= 63 implies #[trigger] ((a[k] >> c) & 1) == (b[k] >> c) & 1 by {
            let i = 64 * k + c;
            assert(i / 64 == k && i % 64 == c) by (nonlinear_arith)
                requires
                    i == 64 * k + c,
                    0 <= c < 64,
            ;
            assert(0 <= i < 64 * a.len());
            if i >= n {
                assert(!bit(a, i));
                assert(!bit(b, i));
            } else {
                assert(members(a, n).contains(i) == bit(a, i));
                assert(members(b, n).contains(i) == bit(b, i));
            }
            assert(bit(a, i) == bit(b, i));
            let (x, y) = (a[k], b[k]);
            assert((x >> c) & 1 == 0 || (x >> c) & 1 == 1) by (bit_vector);
            assert((y >> c) & 1 == 0 || (y >> c) & 1 == 1) by (bit_vector);
        }
        lemma_low_bits(a[k], b[k], 63);
        let (x, y) = (a[k], b[k]);
        assert(x << 0u64 == y << 0u64 ==> x == y) by (bit_vector);
    }
    assert(a =~= b);
}

/// The empty set of members below `n`.
pub fn empty_bits(n: usize) -> (r: Vec<u64>)
    ensures
        clean(r@, n as nat),
        members(r@, n as nat) == Set::<int>::empty(),
{
    let words: usize = n / 64 + (if n % 64 == 0 {
        0
    } else {
        1
    });
    let r: Vec<u64> = vec![0u64;words];
    proof {
        assert forall|i: int| 0 <= i < 64 * r@.len() implies !#[trigger] bit(r@, i) by {
            let c = (i % 64) as u64;
            assert((0u64 >> c) & 1 == 0) by (bit_vector);
            assert(0 <= i / 64 < r@.len());
        }
        assert(members(r@, n as nat) =~= Set::<int>::empty());
    }
    r
}

proof fn lemma_bit_set(x: u64, b: u64, c: u64)
    requires
        b < 64,
        c < 64,
    ensures
        ((x | (1u64 << b)) >> c) & 1 == (if b == c {
            1u64
        } else {
            (x >> c) & 1
        }),
        ((x & !(1u64 << b)) >> c) & 1 == (if b == c {
            0u64
        } else {
            (x >> c) & 1
        }),
{
    assert(b < 64 && c < 64 ==> ((x | (1u64 << b)) >> c) & 1 == (if b == c {
        1u64
    } else {
        (x >> c) & 1
    })) by (bit_vector);
    assert(b < 64 && c < 64 ==> ((x & !(1u64 << b)) >> c) & 1 == (if b == c {
        0u64
    } else {
        (x >> c) & 1
    })) by (bit_vector);
}

/// Put member `i` in.
pub fn set_bit(w: &mut Vec<u64>, i: usize)
    requires
        i / 64 < old(w)@.len(),
    ensures
        forall|n: nat| #[trigger]
            clean(old(w)@, n) && i < n ==> clean(final(w)@, n) && members(final(w)@, n) == members(
                old(w)@,
                n,
            ).insert(i as int),
{
    let k: usize = i / 64;
    let b: u64 = (i % 64) as u64;
    let x: u64 = w[k];
    w[k] = x | (1u64 << b);
    proof {
        let a = old(w)@;
        assert forall|j: int| 0 <= j < 64 * a.len() implies #[trigger] bit(w@, j) == (bit(a, j)
            || j == i) by {
            lemma_bit_set(a[k as int], b, (j % 64) as u64);
            if j / 64 == k && j % 64 == b {
                assert(j == i);
            }
        }
        assert forall|n: nat| #[trigger] clean(a, n) && i < n implies clean(w@, n) && members(
            w@,
            n,
        ) == members(a, n).insert(i as int) by {
            assert(n <= 64 * a.len());
            assert(members(w@, n) =~= members(a, n).insert(i as int));
        }
    }
}

/// Take member `i` out.
pub fn clear_bit(w: &mut Vec<u64>, i: usize)
    requires
        i / 64 < old(w)@.len(),
    ensures
        forall|n: nat| #[trigger]
            clean(old(w)@, n) && i < n ==> clean(final(w)@, n) && members(final(w)@, n) == members(
                old(w)@,
                n,
            ).remove(i as int),
{
    let k: usize = i / 64;
    let b: u64 = (i % 64) as u64;
    let x: u64 = w[k];
    w[k] = x & !(1u64 << b);
    proof {
        let a = old(w)@;
        assert forall|j: int| 0 <= j < 64 * a.len() implies #[trigger] bit(w@, j) == (bit(a, j) && j
            != i) by {
            lemma_bit_set(a[k as int], b, (j % 64) as u64);
            if j / 64 == k && j % 64 == b {
                assert(j == i);
            }
        }
        assert forall|n: nat| #[trigger] clean(a, n) && i < n implies clean(w@, n) && members(
            w@,
            n,
        ) == members(a, n).remove(i as int) by {
            assert(n <= 64 * a.len());
            assert(members(w@, n) =~= members(a, n).remove(i as int));
        }
    }
}

/// A copy of the words.
pub fn copy_words(w: &Vec<u64>) -> (r: Vec<u64>)
    ensures
        r@ == w@,
{
    let mut out: Vec<u64> = Vec::new();
    out.extend_from_slice(w.as_slice());
    assert(out@ =~= w@);
    out
}

/// Whether two sets are the same words.
pub fn same_words(a: &Vec<u64>, b: &Vec<u64>) -> (r: bool)
    ensures
        r == (a@ == b@),
{
    if a.len() != b.len() {
        return false;
    }
    let mut i: usize = 0;
    while i < a.len()
        invariant
            i <= a@.len(),
            a@.len() == b@.len(),
            forall|j: int| 0 <= j < i ==> a@[j] == b@[j],
        decreases a@.len() - i,
    {
        if a[i] != b[i] {
            return false;
        }
        i += 1;
    }
    assert(a@ =~= b@);
    true
}

} // verus!
