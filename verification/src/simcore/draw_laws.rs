//! What drawing at random, tracing and comparing runs come to.

use crate::bytes::le_u64;
use crate::simcore::determinism::divergence_from;
use crate::simcore::rng::{law_below_in_range, Rng};
use crate::simcore::trace::{fnv, Level, RecordView, TraceView};
use crate::simcore::{Nanos, NodeId};
use vstd::prelude::*;

verus! {

// ---- random numbers --------------------------------------------------------

/// A range is as wide as it says: drawing from it is drawing below its width
/// and moving the outcome to its lower end, and both ends can come up.
pub proof fn law_ranges_take_in_both_ends(r: Rng, lo: u64, hi: u64)
    requires
        lo < hi,
        hi - lo < u64::MAX,
    ensures
        r.range_of(lo, hi).0 - lo == r.below_of((hi - lo + 1) as u64).0,
        r.range_of(lo, hi).1 == r.below_of((hi - lo + 1) as u64).1,
        r.below_of((hi - lo + 1) as u64).0 == 0 ==> r.range_of(lo, hi).0 == lo,
        r.below_of((hi - lo + 1) as u64).0 == hi - lo ==> r.range_of(lo, hi).0 == hi,
        r.range_of(lo, lo) == (lo, r),
{
    law_below_in_range(r, (hi - lo + 1) as u64);
}

/// A likelier thing happens wherever a less likely one would have: of the
/// million numbers that can be drawn, as many mean yes as the chance says.
pub proof fn law_chances_are_parts_per_million(r: Rng, less: u32, more: u32)
    requires
        0 < less <= more < 1_000_000,
    ensures
        r.chance_of(less).0 ==> r.chance_of(more).0,
        r.chance_of(less).1 == r.chance_of(more).1,
        r.chance_of(less).0 <==> r.below_of(1_000_000).0 < less,
        r.below_of(1_000_000).0 == less ==> !r.chance_of(less).0,
        r.below_of(1_000_000).0 + 1 == less ==> r.chance_of(less).0,
{
    law_below_in_range(r, 1_000_000);
}

/// A skewed number is the smaller of two drawn one after the other.
pub proof fn law_skew_is_the_smaller_of_two(r: Rng, lo: u64, hi: u64)
    requires
        lo < hi,
        hi - lo < u64::MAX,
    ensures
        ({
            let (a, q) = r.range_of(0, (hi - lo) as u64);
            let (b, z) = q.range_of(0, (hi - lo) as u64);
            let x = r.skewed_of(lo, hi).0 - lo;
            &&& x <= a && x <= b
            &&& x == a || x == b
            &&& r.skewed_of(lo, hi).1 == z
        }),
{
    law_below_in_range(r, (hi - lo + 1) as u64);
    let q = r.range_of(0, (hi - lo) as u64).1;
    law_below_in_range(q, (hi - lo + 1) as u64);
}

proof fn lemma_shuffled_above<T>(r: Rng, s: Seq<T>, i: int, k: int)
    requires
        0 <= i < k < s.len() <= u64::MAX,
    ensures
        r.shuffled(s, i).0[k] == s[k],
        r.shuffled(s, i).0.len() == s.len(),
    decreases i,
{
    if i > 0 {
        let (j, q) = r.below_of((i + 1) as u64);
        law_below_in_range(r, (i + 1) as u64);
        lemma_shuffled_above(
            q,
            s.update(i, s[j as int]).update(j as int, s[i]),
            i - 1,
            k,
        );
    }
}

/// A shuffle gives every item a chance at the last place, and goes on with the
/// rest: the item that ends up last is the one whose place is drawn first.
pub proof fn law_shuffling_draws_the_last_item<T>(r: Rng, s: Seq<T>)
    requires
        1 < s.len() <= u64::MAX,
    ensures
        r.shuffled(s, s.len() - 1).0.last() == s[r.below_of(s.len() as u64).0 as int],
        r.below_of(s.len() as u64).0 < s.len(),
{
    let i = s.len() - 1;
    let (j, q) = r.below_of((i + 1) as u64);
    law_below_in_range(r, s.len() as u64);
    let t = s.update(i, s[j as int]).update(j as int, s[i]);
    assert(t[i] == s[j as int]);
    if i > 1 {
        lemma_shuffled_above(q, t, i - 1, i);
    } else {
        lemma_shuffled_above(q, t, 0, i);
    }
}

/// As many random bytes come as are asked for, eight to a number drawn, and a
/// longer draw begins like a shorter one.
pub proof fn law_random_bytes(r: Rng, n: nat)
    ensures
        r.bytes_of(n).0.len() == n,
        n >= 8 ==> r.bytes_of(n).0.take(8) == r.bytes_of(8).0,
        n >= 8 ==> r.bytes_of(n).0.skip(8) == r.bytes_of(8).1.bytes_of((n - 8) as nat).0,
    decreases n,
{
    if n >= 8 {
        law_random_bytes(r.stepped(), (n - 8) as nat);
        let head = le_u64(r.draw());
        assert(r.stepped().bytes_of(0) == (Seq::<u8>::empty(), r.stepped()));
        assert(r.bytes_of(8).1 == r.stepped());
        assert(r.bytes_of(8).0 =~= head);
        assert(r.bytes_of(n).0.take(8) =~= head);
        assert(r.bytes_of(n).0.skip(8) =~= r.stepped().bytes_of((n - 8) as nat).0);
    }
}

// ---- traces ----------------------------------------------------------------

/// A trace keeps a line exactly where it is no more verbose than the trace, and
/// none at all while it is off.
pub proof fn law_levels_are_thresholds(t: TraceView, a: Level, b: Level)
    ensures
        t.level == Level::Off ==> !t.enabled(a),
        t.level != Level::Off ==> t.enabled(t.level),
        t.level == Level::Debug ==> t.enabled(a),
        t.level == Level::Error ==> (t.enabled(a) <==> a == Level::Off || a == Level::Error),
        t.level == Level::Warn ==> !t.enabled(Level::Info) && !t.enabled(Level::Debug),
        t.level == Level::Info ==> !t.enabled(Level::Debug) && t.enabled(Level::Warn),
        a.rank() <= b.rank() && t.enabled(b) ==> t.enabled(a),
        a.rank() == b.rank() ==> a == b,
{
}

/// No line goes missing unnoticed: what is kept and what was dropped make up all
/// that was logged; the newest lines are kept, in order, and nothing is dropped
/// before the log is full.
pub proof fn law_lines_are_accounted_for(t: TraceView, r: RecordView)
    requires
        t.enabled(r.level),
        t.dropped + t.records.len() < u64::MAX,
    ensures
        ({
            let u = t.log(r);
            let gone = u.dropped - t.dropped;
            &&& u.dropped + u.records.len() == t.dropped + t.records.len() + 1
            &&& 0 <= gone <= t.records.len()
            &&& u.records == t.records.skip(gone).push(r)
            &&& t.records.len() < t.max_records ==> gone == 0
            &&& t.records.len() >= t.max_records ==> gone == t.records.len() / 2
            &&& u.level == t.level && u.max_records == t.max_records
        }),
{
    if t.records.len() < t.max_records {
        assert(t.records.skip(0) =~= t.records);
    }
}

/// Bytes can be folded in all at once or a part at a time.
pub proof fn law_folding_in_parts(h: u64, a: Seq<u8>, b: Seq<u8>)
    ensures
        fnv(h, a + b) == fnv(fnv(h, a), b),
    decreases b.len(),
{
    if b.len() == 0 {
        assert(a + b =~= a);
    } else {
        law_folding_in_parts(h, a, b.drop_last());
        assert((a + b).drop_last() =~= a + b.drop_last());
    }
}

/// Every significant event is counted, and folds its time, its node, its name
/// and its numbers into the fingerprint, in that order; nothing else changes.
pub proof fn law_events_are_observed(
    t: TraceView,
    time: Nanos,
    node: Option<NodeId>,
    tag: Seq<char>,
    args: Seq<u64>,
    more: u64,
)
    requires
        t.observed < u64::MAX,
    ensures
        t.observe(time, node, tag, args).observed == t.observed + 1,
        t.observe(time, node, tag, args).records == t.records,
        t.observe(time, node, tag, args).level == t.level,
        t.observe(time, node, tag, args.push(more)).fingerprint == t.observe(
            time,
            node,
            tag,
            args,
        ).fingerprint.fed(le_u64(more)),
{
    assert(args.push(more).drop_last() =~= args);
}

// ---- comparing runs --------------------------------------------------------

proof fn lemma_divergence(a: Seq<RecordView>, b: Seq<RecordView>, i: int)
    requires
        0 <= i <= a.len(),
        i <= b.len(),
        forall|j: int| 0 <= j < i ==> (#[trigger] a[j]).line() == b[j].line(),
    ensures
        match divergence_from(a, b, i) {
            Some(k) => {
                &&& i <= k <= a.len() && k <= b.len()
                &&& forall|j: int| 0 <= j < k ==> (#[trigger] a[j]).line() == b[j].line()
                &&& k < a.len() && k < b.len() ==> a[k].line() != b[k].line()
                &&& k == a.len() || k == b.len() ==> a.len() != b.len()
            },
            None => a.len() == b.len() && forall|j: int|
                0 <= j < a.len() ==> (#[trigger] a[j]).line() == b[j].line(),
        },
    decreases a.len() - i,
{
    if i < a.len() && i < b.len() && a[i].line() == b[i].line() {
        lemma_divergence(a, b, i + 1);
    }
}

/// Two logs diverge at the first line they do not share: every line before it is
/// the same in both, and it differs or is there in one of them only. They do not
/// diverge exactly where they are line for line the same.
pub proof fn law_the_first_divergence(a: Seq<RecordView>, b: Seq<RecordView>)
    ensures
        match divergence_from(a, b, 0) {
            Some(k) => {
                &&& 0 <= k <= a.len() && k <= b.len()
                &&& forall|j: int| 0 <= j < k ==> (#[trigger] a[j]).line() == b[j].line()
                &&& k < a.len() && k < b.len() ==> a[k].line() != b[k].line()
                &&& k == a.len() || k == b.len() ==> a.len() != b.len()
            },
            None => a.len() == b.len() && forall|j: int|
                0 <= j < a.len() ==> (#[trigger] a[j]).line() == b[j].line(),
        },
{
    lemma_divergence(a, b, 0);
}

} // verus!
