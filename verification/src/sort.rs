//! Stable ordering by an integer key.

use vstd::prelude::*;

verus! {

/// What items are ordered by: three numbers, the first counting most.
#[derive(Clone, Copy, Debug, PartialEq, Eq)]
pub struct Key {
    pub first: u64,
    pub second: u64,
    pub third: u64,
}

impl Key {
    /// Whether this key sorts no later than `other`.
    pub open spec fn le(self, other: Key) -> bool {
        ||| self.first < other.first
        ||| self.first == other.first && self.second < other.second
        ||| self.first == other.first && self.second == other.second && self.third <= other.third
    }

    /// Whether this key sorts no later than `other`.
    pub fn at_most(self, other: Key) -> (r: bool)
        ensures
            r == self.le(other),
    {
        self.first < other.first || (self.first == other.first && (self.second < other.second || (
        self.second == other.second && self.third <= other.third)))
    }
}

/// Item `k` put behind every item of `order` that does not sort after it.
pub open spec fn insert_item(keys: Seq<Key>, order: Seq<int>, k: int) -> Seq<int>
    decreases order.len(),
{
    if order.len() == 0 || keys[order.last()].le(keys[k]) {
        order.push(k)
    } else {
        insert_item(keys, order.drop_last(), k).push(order.last())
    }
}

/// The first `n` items in key order; items with equal keys keep their order.
pub open spec fn stable_order(keys: Seq<Key>, n: nat) -> Seq<int>
    decreases n,
{
    if n == 0 {
        Seq::empty()
    } else {
        insert_item(keys, stable_order(keys, (n - 1) as nat), n - 1)
    }
}

/// Whether items come in key order.
pub open spec fn in_order(keys: Seq<Key>, order: Seq<int>) -> bool {
    forall|i: int, j: int|
        0 <= i <= j < order.len() ==> keys[#[trigger] order[i]].le(keys[#[trigger] order[j]])
}

/// Whether `order` holds each of the first `n` items exactly once.
pub open spec fn arranges(order: Seq<int>, n: nat) -> bool {
    &&& order.len() == n
    &&& forall|i: int| 0 <= i < n ==> 0 <= #[trigger] order[i] < n
    &&& forall|i: int, j: int| 0 <= i < j < n ==> #[trigger] order[i] != #[trigger] order[j]
}

proof fn lemma_insert(keys: Seq<Key>, order: Seq<int>, k: int)
    requires
        in_order(keys, order),
        forall|i: int| 0 <= i < order.len() ==> #[trigger] order[i] != k,
        forall|i: int, j: int|
            0 <= i < j < order.len() ==> #[trigger] order[i] != #[trigger] order[j],
    ensures
        ({
            let r = insert_item(keys, order, k);
            &&& in_order(keys, r)
            &&& r.len() == order.len() + 1
            &&& forall|i: int| 0 <= i < r.len() ==> #[trigger] r[i] == k || order.contains(r[i])
            &&& forall|i: int, j: int| 0 <= i < j < r.len() ==> #[trigger] r[i] != #[trigger] r[j]
            &&& forall|i: int|
                0 <= i < order.len() ==> keys[#[trigger] order[i]].le(keys[k]) || keys[k].le(
                    keys[order[i]],
                )
        }),
    decreases order.len(),
{
    let r = insert_item(keys, order, k);
    if order.len() == 0 {
    } else if keys[order.last()].le(keys[k]) {
        assert forall|i: int, j: int| 0 <= i <= j < r.len() implies keys[#[trigger] r[i]].le(
            keys[#[trigger] r[j]],
        ) by {
            if j == order.len() && i < j {
                assert(keys[order[i]].le(keys[order[order.len() - 1]]));
            }
        }
        assert forall|i: int| 0 <= i < r.len() implies #[trigger] r[i] == k || order.contains(
            r[i],
        ) by {
            if i < order.len() {
                assert(order[i] == r[i]);
            }
        }
    } else {
        let d = order.drop_last();
        lemma_insert(keys, d, k);
        let q = insert_item(keys, d, k);
        let last = order.last();
        assert(order[order.len() - 1] == last);
        assert forall|i: int| 0 <= i < q.len() implies keys[#[trigger] q[i]].le(keys[last])
            && q[i] != last by {
            if q[i] != k {
                let j = choose|j: int| 0 <= j < d.len() && d[j] == q[i];
                assert(order[j] == q[i]);
            }
        }
        assert forall|i: int, j: int| 0 <= i <= j < r.len() implies keys[#[trigger] r[i]].le(
            keys[#[trigger] r[j]],
        ) by {
            if j < q.len() {
                assert(q[i] == r[i] && q[j] == r[j]);
            } else if i < q.len() {
                assert(q[i] == r[i]);
            }
        }
        assert forall|i: int| 0 <= i < r.len() implies #[trigger] r[i] == k || order.contains(
            r[i],
        ) by {
            if i < q.len() {
                assert(q[i] == r[i]);
                if q[i] != k {
                    let j = choose|j: int| 0 <= j < d.len() && d[j] == q[i];
                    assert(order[j] == r[i]);
                }
            }
        }
        assert forall|i: int, j: int| 0 <= i < j < r.len() implies #[trigger] r[i]
            != #[trigger] r[j] by {
            assert(q[i] == r[i]);
            if j < q.len() {
                assert(q[j] == r[j]);
            }
        }
    }
}

/// The stable order is in key order and holds each item exactly once.
pub proof fn law_stable_order(keys: Seq<Key>, n: nat)
    requires
        n <= keys.len(),
    ensures
        in_order(keys, stable_order(keys, n)),
        arranges(stable_order(keys, n), n),
    decreases n,
{
    if n > 0 {
        let o = stable_order(keys, (n - 1) as nat);
        law_stable_order(keys, (n - 1) as nat);
        lemma_insert(keys, o, n - 1);
        let r = stable_order(keys, n);
        assert forall|i: int| 0 <= i < n implies 0 <= #[trigger] r[i] < n by {
            if r[i] != n - 1 {
                let j = choose|j: int| 0 <= j < o.len() && o[j] == r[i];
            }
        }
    }
}

/// In an arrangement of `n` items, every item has a place.
pub proof fn lemma_arranged_place(order: Seq<int>, n: nat, e: int)
    requires
        arranges(order, n),
        0 <= e < n,
    ensures
        order.contains(e),
{
    let s = order.to_set();
    vstd::seq_lib::seq_to_set_is_finite(order);
    assert(order.no_duplicates());
    order.unique_seq_to_set();
    let all = vstd::set_lib::set_int_range(0, n as int);
    vstd::set_lib::lemma_int_range(0, n as int);
    assert(s.subset_of(all)) by {
        assert forall|x: int| s.contains(x) implies all.contains(x) by {
            let i = choose|i: int| 0 <= i < order.len() && order[i] == x;
        }
    }
    vstd::set_lib::lemma_subset_equality(s, all);
    assert(all.contains(e));
}

/// The positions of a vector of machine indices as integers.
pub open spec fn positions(v: Seq<usize>) -> Seq<int> {
    v.map_values(|x: usize| x as int)
}

/// Order all items by their keys.
pub fn sort_items(keys: &Vec<Key>) -> (r: Vec<usize>)
    ensures
        positions(r@) == stable_order(keys@, keys@.len()),
{
    let mut out: Vec<usize> = Vec::new();
    let mut k: usize = 0;
    assert(positions(out@) =~= stable_order(keys@, 0));
    while k < keys.len()
        invariant
            k <= keys@.len(),
            positions(out@) == stable_order(keys@, k as nat),
            out@.len() == k,
            forall|i: int| 0 <= i < out@.len() ==> #[trigger] out@[i] < k,
        decreases keys@.len() - k,
    {
        let ghost before = positions(out@);
        let mut p: usize = out.len();
        assert(before.take(p as int) =~= before);
        assert(before.skip(p as int) =~= Seq::empty());
        proof {
            let r = insert_item(keys@, before, k as int);
            assert(r + Seq::<int>::empty() =~= r);
        }
        while p > 0 && !keys[out[p - 1]].at_most(keys[k])
            invariant
                p <= out@.len(),
                k < keys@.len(),
                before == positions(out@),
                forall|i: int| 0 <= i < out@.len() ==> #[trigger] out@[i] < k,
                insert_item(keys@, before, k as int) == insert_item(
                    keys@,
                    before.take(p as int),
                    k as int,
                ) + before.skip(p as int),
            decreases p,
        {
            proof {
                let t = before.take(p as int);
                assert(t.last() == out@[p - 1]);
                assert(t.drop_last() =~= before.take(p - 1));
                let u = insert_item(keys@, before.take(p - 1), k as int);
                assert(u.push(t.last()) + before.skip(p as int) =~= u + before.skip(p - 1));
            }
            p -= 1;
        }
        out.insert(p, k);
        proof {
            let t = before.take(p as int);
            if p > 0 {
                assert(t.last() == before[p - 1]);
            }
            assert(insert_item(keys@, t, k as int) == t.push(k as int));
            assert(positions(out@) =~= t.push(k as int) + before.skip(p as int));
        }
        k += 1;
    }
    out
}

} // verus!
