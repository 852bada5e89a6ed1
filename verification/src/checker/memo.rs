//! A set of search configurations, hashed into buckets.

use crate::checker::bits::same_words;
use crate::checker::operation::Reg;
use crate::text::{opt_text, same_opt};
use vstd::prelude::*;
use vstd::utf8::encode_utf8;

verus! {

/// How many buckets a memo has.
pub const BUCKETS: usize = 16_384;

/// One configuration: a set of operations and the state they lead to.
pub struct Config {
    pub words: Vec<u64>,
    pub state: Option<String>,
}

impl View for Config {
    type V = (Seq<u64>, Reg);

    open spec fn view(&self) -> (Seq<u64>, Reg) {
        (self.words@, opt_text(self.state))
    }
}

/// Mix one number into a hash.
pub open spec fn mix(h: u64, v: u64) -> u64 {
    let x = (h ^ v).wrapping_mul(0x9E37_79B9_7F4A_7C15);
    x ^ (x >> 29)
}

/// The hash of a list of words.
pub open spec fn hash_words(w: Seq<u64>) -> u64
    decreases w.len(),
{
    if w.len() == 0 {
        0
    } else {
        mix(hash_words(w.drop_last()), w.last())
    }
}

/// The hash of a byte string, mixed into `h`.
pub open spec fn hash_bytes(h: u64, b: Seq<u8>) -> u64
    decreases b.len(),
{
    if b.len() == 0 {
        h
    } else {
        mix(hash_bytes(h, b.drop_last()), b.last() as u64)
    }
}

/// The bucket of a configuration.
pub open spec fn bucket_of(c: (Seq<u64>, Reg)) -> int {
    let h = match c.1 {
        None => hash_words(c.0),
        Some(s) => hash_bytes(mix(hash_words(c.0), 1), encode_utf8(s)),
    };
    (h % (BUCKETS as u64)) as int
}

fn mixed(h: u64, v: u64) -> (r: u64)
    ensures
        r == mix(h, v),
{
    let x: u64 = (h ^ v).wrapping_mul(0x9E37_79B9_7F4A_7C15);
    x ^ (x >> 29)
}

fn bucket(words: &Vec<u64>, state: &Option<String>) -> (r: usize)
    ensures
        r == bucket_of((words@, opt_text(*state))),
        r < BUCKETS,
{
    let mut h: u64 = 0;
    let mut i: usize = 0;
    while i < words.len()
        invariant
            i <= words@.len(),
            h == hash_words(words@.take(i as int)),
        decreases words@.len() - i,
    {
        h = mixed(h, words[i]);
        i += 1;
        assert(words@.take(i as int).drop_last() =~= words@.take(i - 1));
    }
    assert(words@.take(i as int) =~= words@);
    if let Some(s) = state {
        let b = s.as_str().as_bytes();
        h = mixed(h, 1);
        let ghost h0 = h;
        let mut j: usize = 0;
        while j < b.len()
            invariant
                j <= b@.len(),
                h == hash_bytes(h0, b@.take(j as int)),
            decreases b@.len() - j,
        {
            h = mixed(h, b[j] as u64);
            j += 1;
            assert(b@.take(j as int).drop_last() =~= b@.take(j - 1));
        }
        assert(b@.take(j as int) =~= b@);
    }
    (h % (BUCKETS as u64)) as usize
}

/// A set of configurations.
pub struct Memo {
    buckets: Vec<Vec<Config>>,
    seen: Ghost<Set<(Seq<u64>, Reg)>>,
}

/// Whether a bucket holds a configuration.
pub open spec fn bucket_has(b: Seq<Config>, c: (Seq<u64>, Reg)) -> bool {
    exists|j: int| 0 <= j < b.len() && (#[trigger] b[j])@ == c
}

impl View for Memo {
    type V = Set<(Seq<u64>, Reg)>;

    closed spec fn view(&self) -> Set<(Seq<u64>, Reg)> {
        self.seen@
    }
}

impl Memo {
    /// The buckets hold exactly the set, each configuration in its own bucket.
    pub closed spec fn wf(&self) -> bool {
        &&& self.buckets@.len() == BUCKETS
        &&& forall|c: (Seq<u64>, Reg)| #[trigger]
            self.seen@.contains(c) <==> bucket_has(self.buckets@[bucket_of(c)]@, c)
    }

    pub fn new() -> (r: Memo)
        ensures
            r.wf(),
            r@ == Set::<(Seq<u64>, Reg)>::empty(),
    {
        let mut buckets: Vec<Vec<Config>> = Vec::new();
        let mut i: usize = 0;
        while i < BUCKETS
            invariant
                i <= BUCKETS,
                buckets@.len() == i,
                forall|k: int| 0 <= k < i ==> (#[trigger] buckets@[k])@.len() == 0,
            decreases BUCKETS - i,
        {
            buckets.push(Vec::new());
            i += 1;
        }
        Memo { buckets, seen: Ghost(Set::empty()) }
    }

    /// Add a configuration; whether it was new.
    pub fn insert(&mut self, words: Vec<u64>, state: Option<String>) -> (r: bool)
        requires
            old(self).wf(),
        ensures
            final(self).wf(),
            r == !old(self)@.contains((words@, opt_text(state))),
            final(self)@ == old(self)@.insert((words@, opt_text(state))),
    {
        let k: usize = bucket(&words, &state);
        let ghost c = (words@, opt_text(state));
        let mut j: usize = 0;
        while j < self.buckets[k].len()
            invariant
                *self == *old(self),
                old(self).wf(),
                k < BUCKETS,
                k == bucket_of(c),
                c == (words@, opt_text(state)),
                j <= self.buckets@[k as int]@.len(),
                forall|i: int| 0 <= i < j ==> (#[trigger] self.buckets@[k as int]@[i])@ != c,
            decreases self.buckets@[k as int]@.len() - j,
        {
            let x = &self.buckets[k][j];
            if same_words(&x.words, &words) && same_opt(&x.state, &state) {
                assert(self.buckets@[k as int]@[j as int]@ == c);
                assert(self.seen@.insert(c) =~= self.seen@);
                return false;
            }
            j += 1;
        }
        let ghost olds = self.buckets@;
        self.buckets[k].push(Config { words, state });
        proof {
            self.seen@ = self.seen@.insert(c);
            let news = self.buckets@;
            assert forall|d: (Seq<u64>, Reg)| #[trigger] self.seen@.contains(d) <==> bucket_has(
                news[bucket_of(d)]@,
                d,
            ) by {
                let q = bucket_of(d);
                assert(0 <= q < BUCKETS);
                if q == k {
                    let (a, b) = (olds[q]@, news[q]@);
                    assert(b.last()@ == c);
                    if bucket_has(a, d) {
                        let i = choose|i: int| 0 <= i < a.len() && (#[trigger] a[i])@ == d;
                        assert(b[i]@ == d);
                    }
                    if bucket_has(b, d) && d != c {
                        let i = choose|i: int| 0 <= i < b.len() && (#[trigger] b[i])@ == d;
                        assert(a[i]@ == d);
                    }
                    if d == c {
                        assert(b[b.len() - 1]@ == d);
                    }
                }
                assert(old(self).seen@.contains(d) <==> bucket_has(olds[q]@, d));
            }
        }
        true
    }
}

} // verus!
