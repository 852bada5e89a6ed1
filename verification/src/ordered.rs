//! A map from numbers to values, kept in key order.

use vstd::prelude::*;

verus! {

/// A map from numbers to values, kept in key order.
#[derive(Debug)]
pub struct OrderedMap<V> {
    rows: Vec<(u64, V)>,
}

impl<V> View for OrderedMap<V> {
    type V = Seq<(u64, V)>;

    closed spec fn view(&self) -> Seq<(u64, V)> {
        self.rows@
    }
}

/// How many rows come before a key, in rows that are in key order.
pub open spec fn row_place<V>(rows: Seq<(u64, V)>, key: u64) -> int
    decreases rows.len(),
{
    if rows.len() == 0 || rows.last().0 < key {
        rows.len() as int
    } else {
        row_place(rows.drop_last(), key)
    }
}

/// The value under a key.
pub open spec fn row_of<V>(rows: Seq<(u64, V)>, key: u64) -> Option<V> {
    let p = row_place(rows, key);
    if p < rows.len() && rows[p].0 == key {
        Some(rows[p].1)
    } else {
        None
    }
}

/// The rows with one set.
pub open spec fn row_put<V>(rows: Seq<(u64, V)>, key: u64, v: V) -> Seq<(u64, V)> {
    let p = row_place(rows, key);
    if p < rows.len() && rows[p].0 == key {
        rows.update(p, (key, v))
    } else {
        rows.insert(p, (key, v))
    }
}

/// The rows without one key.
pub open spec fn row_gone<V>(rows: Seq<(u64, V)>, key: u64) -> Seq<(u64, V)> {
    let p = row_place(rows, key);
    if p < rows.len() && rows[p].0 == key {
        rows.remove(p)
    } else {
        rows
    }
}

/// Whether rows are in strictly ascending key order.
pub open spec fn rows_sorted<V>(rows: Seq<(u64, V)>) -> bool {
    forall|i: int, j: int|
        0 <= i < j < rows.len() ==> (#[trigger] rows[i]).0 < (#[trigger] rows[j]).0
}

proof fn lemma_row_place<V>(rows: Seq<(u64, V)>, key: u64)
    ensures
        0 <= row_place(rows, key) <= rows.len(),
        row_place(rows, key) > 0 ==> rows[row_place(rows, key) - 1].0 < key,
        forall|i: int| row_place(rows, key) <= i < rows.len() ==> (#[trigger] rows[i]).0 >= key,
    decreases rows.len(),
{
    if rows.len() > 0 && rows.last().0 >= key {
        lemma_row_place(rows.drop_last(), key);
        assert forall|i: int| row_place(rows, key) <= i < rows.len() implies (
        #[trigger] rows[i]).0 >= key by {
            if i < rows.len() - 1 {
                assert(rows.drop_last()[i] == rows[i]);
            }
        }
    }
}

/// Setting and removing keep the order, and change what is under one key only.
pub proof fn law_rows_behave<V>(rows: Seq<(u64, V)>, key: u64, v: V, other: u64)
    requires
        rows_sorted(rows),
    ensures
        rows_sorted(row_put(rows, key, v)),
        rows_sorted(row_gone(rows, key)),
        row_of(row_put(rows, key, v), key) == Some(v),
        row_of(row_gone(rows, key), key) is None,
        other != key ==> row_of(row_put(rows, key, v), other) == row_of(rows, other),
        other != key ==> row_of(row_gone(rows, key), other) == row_of(rows, other),
{
    let p = row_place(rows, key);
    lemma_row_place(rows, key);
    let hit = p < rows.len() && rows[p].0 == key;
    let (a, b) = (row_put(rows, key, v), row_gone(rows, key));
    assert forall|i: int, j: int| 0 <= i < j < a.len() implies (#[trigger] a[i]).0 < (
    #[trigger] a[j]).0 by {
        if !hit {
            if i < p && j == p {
                assert(rows[i].0 <= rows[p - 1].0);
            }
            if i == p {
                assert(rows[j - 1].0 >= key);
                if rows[j - 1].0 == key {
                    assert(j - 1 == p || rows[p].0 < rows[j - 1].0);
                }
            }
        }
    }
    assert forall|i: int, j: int| 0 <= i < j < b.len() implies (#[trigger] b[i]).0 < (
    #[trigger] b[j]).0 by {
        if hit {
            let (x, y) = (if i < p {
                i
            } else {
                i + 1
            }, if j < p {
                j
            } else {
                j + 1
            });
            assert(rows[x].0 < rows[y].0);
        }
    }
    lemma_row_of(a, key);
    assert(a[p] == (key, v));
    lemma_row_of(b, key);
    assert forall|i: int| 0 <= i < b.len() implies (#[trigger] b[i]).0 != key by {
        if hit {
            if i < p {
                assert(rows[i].0 < rows[p].0);
            } else {
                assert(rows[p].0 < rows[i + 1].0);
            }
        } else if i < p {
            assert(rows[i].0 <= rows[p - 1].0);
        } else if rows[i].0 == key {
            assert(i == p || rows[p].0 < rows[i].0);
        }
    }
    if other != key {
        lemma_row_of(rows, other);
        lemma_row_of(a, other);
        lemma_row_of(b, other);
        if exists|i: int| 0 <= i < rows.len() && (#[trigger] rows[i]).0 == other {
            let i = choose|i: int| 0 <= i < rows.len() && (#[trigger] rows[i]).0 == other;
            assert(a[if hit || i < p {
                i
            } else {
                i + 1
            }] == rows[i]);
            assert(b[if !hit || i < p {
                i
            } else {
                i - 1
            }] == rows[i]);
        } else {
            assert forall|i: int| 0 <= i < a.len() implies (#[trigger] a[i]).0 != other by {
                if i != p {
                    assert(a[i] == rows[if hit || i < p {
                        i
                    } else {
                        i - 1
                    }]);
                }
            }
            assert forall|i: int| 0 <= i < b.len() implies (#[trigger] b[i]).0 != other by {
                assert(b[i] == rows[if !hit || i < p {
                    i
                } else {
                    i + 1
                }]);
            }
        }
    }
}

proof fn lemma_row_of<V>(rows: Seq<(u64, V)>, key: u64)
    requires
        rows_sorted(rows),
    ensures
        forall|i: int|
            0 <= i < rows.len() && (#[trigger] rows[i]).0 == key ==> row_of(rows, key) == Some(
                rows[i].1,
            ),
        (forall|i: int| 0 <= i < rows.len() ==> (#[trigger] rows[i]).0 != key) ==> row_of(
            rows,
            key,
        ) is None,
{
    let p = row_place(rows, key);
    lemma_row_place(rows, key);
    assert forall|i: int| 0 <= i < rows.len() && (#[trigger] rows[i]).0 == key implies row_of(
        rows,
        key,
    ) == Some(rows[i].1) by {
        if i < p {
            if i < p - 1 {
                assert(rows[i].0 < rows[p - 1].0);
            }
        } else if i > p {
            assert(rows[p].0 < rows[i].0);
        }
    }
}

impl<V> OrderedMap<V> {
    pub fn new() -> (r: OrderedMap<V>)
        ensures
            r@ == Seq::<(u64, V)>::empty(),
    {
        OrderedMap { rows: Vec::new() }
    }

    pub fn len(&self) -> (r: usize)
        ensures
            r == self@.len(),
    {
        self.rows.len()
    }

    fn place(&self, key: u64) -> (r: usize)
        ensures
            r == row_place(self@, key),
            r <= self.rows@.len(),
    {
        let mut p: usize = self.rows.len();
        assert(self.rows@.take(p as int) =~= self.rows@);
        while p > 0 && self.rows[p - 1].0 >= key
            invariant
                p <= self.rows@.len(),
                row_place(self.rows@, key) == row_place(self.rows@.take(p as int), key),
            decreases p,
        {
            proof {
                let t = self.rows@.take(p as int);
                assert(t.last() == self.rows@[p - 1]);
                assert(t.drop_last() =~= self.rows@.take(p - 1));
            }
            p -= 1;
        }
        proof {
            if p > 0 {
                assert(self.rows@.take(p as int).last() == self.rows@[p - 1]);
            }
        }
        p
    }

    /// Set the value under a key.
    pub fn insert(&mut self, key: u64, v: V)
        ensures
            final(self)@ == row_put(old(self)@, key, v),
    {
        let p: usize = self.place(key);
        if p < self.rows.len() && self.rows[p].0 == key {
            self.rows[p] = (key, v);
        } else {
            self.rows.insert(p, (key, v));
        }
    }

    /// Take the value under a key out.
    pub fn remove(&mut self, key: u64) -> (r: Option<V>)
        ensures
            r == row_of(old(self)@, key),
            final(self)@ == row_gone(old(self)@, key),
    {
        let p: usize = self.place(key);
        if p < self.rows.len() && self.rows[p].0 == key {
            let (_, v) = self.rows.remove(p);
            Some(v)
        } else {
            None
        }
    }

    /// The row at a place.
    pub fn row(&self, i: usize) -> (r: &(u64, V))
        requires
            i < self@.len(),
        ensures
            *r == self@[i as int],
    {
        &self.rows[i]
    }

    /// Put another row at a place.
    pub fn set_row(&mut self, i: usize, row: (u64, V))
        requires
            i < old(self)@.len(),
        ensures
            final(self)@ == old(self)@.update(i as int, row),
    {
        self.rows[i] = row;
    }

    /// Take the first row out.
    pub fn pop_first(&mut self) -> (r: (u64, V))
        requires
            old(self)@.len() > 0,
        ensures
            r == old(self)@[0],
            final(self)@ == old(self)@.drop_first(),
    {
        let row = self.rows.remove(0);
        assert(self.rows@ =~= old(self).rows@.drop_first());
        row
    }
}

} // verus!
