//! A map from text to values, kept in key order.

use crate::bytes::{law_lex_irreflexive, law_lex_total, law_lex_transitive};
use crate::text::{law_encoding_injective, less_str, same_str, text_less};
use vstd::prelude::*;
use vstd::utf8::encode_utf8;

verus! {

/// A map from text to values, kept in key order.
#[derive(Debug, PartialEq, Eq)]
pub struct KeyTable<V> {
    rows: Vec<(String, V)>,
}

/// Whether rows are in strictly ascending key order.
pub open spec fn sorted<V>(rows: Seq<(String, V)>) -> bool {
    forall|i: int, j: int|
        0 <= i < j < rows.len() ==> text_less((#[trigger] rows[i]).0@, (#[trigger] rows[j]).0@)
}

/// The map that rows stand for.
pub open spec fn rows_map<V: View>(rows: Seq<(String, V)>) -> Map<Seq<char>, V::V>
    decreases rows.len(),
{
    if rows.len() == 0 {
        Map::empty()
    } else {
        rows_map(rows.drop_last()).insert(rows.last().0@, rows.last().1@)
    }
}

proof fn lemma_less_total(a: Seq<char>, b: Seq<char>)
    ensures
        a == b || text_less(a, b) || text_less(b, a),
        !text_less(a, a),
{
    law_lex_total(encode_utf8(a), encode_utf8(b));
    law_lex_irreflexive(encode_utf8(a));
    if encode_utf8(a) == encode_utf8(b) {
        law_encoding_injective(a, b);
    }
}

proof fn lemma_less_transitive(a: Seq<char>, b: Seq<char>, c: Seq<char>)
    requires
        text_less(a, b),
        text_less(b, c),
    ensures
        text_less(a, c),
{
    law_lex_transitive(encode_utf8(a), encode_utf8(b), encode_utf8(c));
}

proof fn lemma_rows_map<V: View>(rows: Seq<(String, V)>)
    requires
        sorted(rows),
    ensures
        rows_map(rows).dom().finite(),
        rows_map(rows).dom().len() == rows.len(),
        forall|i: int|
            0 <= i < rows.len() ==> rows_map(rows).contains_key((#[trigger] rows[i]).0@) && rows_map(
                rows,
            )[rows[i].0@] == rows[i].1@,
        forall|k: Seq<char>| #[trigger]
            rows_map(rows).contains_key(k) ==> exists|i: int|
                0 <= i < rows.len() && (#[trigger] rows[i]).0@ == k,
    decreases rows.len(),
{
    if rows.len() > 0 {
        let d = rows.drop_last();
        let last = rows.last();
        let n = rows.len() - 1;
        assert(sorted(d));
        lemma_rows_map(d);
        assert forall|i: int| 0 <= i < rows.len() implies rows_map(rows).contains_key(
            (#[trigger] rows[i]).0@,
        ) && rows_map(rows)[rows[i].0@] == rows[i].1@ by {
            if i < n {
                assert(d[i] == rows[i]);
                assert(text_less(rows[i].0@, rows[n].0@));
                lemma_less_total(rows[n].0@, rows[n].0@);
            }
        }
        assert(!rows_map(d).contains_key(last.0@)) by {
            if rows_map(d).contains_key(last.0@) {
                let i = choose|i: int| 0 <= i < d.len() && (#[trigger] d[i]).0@ == last.0@;
                assert(text_less(rows[i].0@, rows[n].0@));
                lemma_less_total(rows[n].0@, rows[n].0@);
            }
        }
        assert forall|k: Seq<char>| #[trigger] rows_map(rows).contains_key(k) implies exists|
            i: int,
        |
            0 <= i < rows.len() && (#[trigger] rows[i]).0@ == k by {
            if k == last.0@ {
                assert(rows[n].0@ == k);
            } else {
                assert(rows_map(d).contains_key(k));
                let i = choose|i: int| 0 <= i < d.len() && (#[trigger] d[i]).0@ == k;
                assert(rows[i].0@ == k);
            }
        }
    }
}

/// Whether rows list a map, keys ascending.
pub open spec fn lists<A>(rows: Seq<(Seq<char>, A)>, m: Map<Seq<char>, A>) -> bool {
    &&& forall|i: int, j: int|
        0 <= i < j < rows.len() ==> text_less((#[trigger] rows[i]).0, (#[trigger] rows[j]).0)
    &&& forall|i: int|
        0 <= i < rows.len() ==> m.contains_key((#[trigger] rows[i]).0) && m[rows[i].0] == rows[i].1
    &&& forall|k: Seq<char>| #[trigger]
        m.contains_key(k) ==> exists|i: int| 0 <= i < rows.len() && (#[trigger] rows[i]).0 == k
}

/// The rows of a map, keys ascending.
pub open spec fn listing<A>(m: Map<Seq<char>, A>) -> Seq<(Seq<char>, A)> {
    choose|rows: Seq<(Seq<char>, A)>| lists(rows, m)
}

/// The views of rows.
pub open spec fn row_views<V: View>(rows: Seq<(String, V)>) -> Seq<(Seq<char>, V::V)> {
    rows.map_values(|r: (String, V)| (r.0@, r.1@))
}

/// A map can be listed in one way only.
pub proof fn law_one_listing<A>(a: Seq<(Seq<char>, A)>, b: Seq<(Seq<char>, A)>, m: Map<Seq<char>, A>)
    requires
        lists(a, m),
        lists(b, m),
    ensures
        a == b,
    decreases a.len(),
{
    if a.len() == 0 {
        if b.len() > 0 {
            assert(m.contains_key(b[0].0));
        }
        assert(a =~= b);
    } else {
        assert(m.contains_key(a[0].0));
        let (x, y) = (a.last(), b.last());
        assert(m.contains_key(x.0) && m.contains_key(y.0)) by {
            assert(a[a.len() - 1] == x);
            assert(b[b.len() - 1] == y);
        }
        let j = choose|j: int| 0 <= j < b.len() && (#[trigger] b[j]).0 == x.0;
        let i = choose|i: int| 0 <= i < a.len() && (#[trigger] a[i]).0 == y.0;
        assert(x.0 == y.0) by {
            if j < b.len() - 1 && i < a.len() - 1 {
                assert(text_less(b[j].0, b[b.len() - 1].0));
                assert(text_less(a[i].0, a[a.len() - 1].0));
                lemma_less_transitive(x.0, y.0, x.0);
                lemma_less_total(x.0, x.0);
            }
        }
        lemma_shorter_listing(a, m);
        lemma_shorter_listing(b, m);
        law_one_listing(a.drop_last(), b.drop_last(), m.remove(x.0));
        assert(a =~= a.drop_last().push(x));
        assert(b =~= b.drop_last().push(y));
    }
}

proof fn lemma_shorter_listing<A>(a: Seq<(Seq<char>, A)>, m: Map<Seq<char>, A>)
    requires
        lists(a, m),
        a.len() > 0,
    ensures
        lists(a.drop_last(), m.remove(a.last().0)),
{
    let (d, rest) = (a.drop_last(), m.remove(a.last().0));
    assert forall|i: int| 0 <= i < d.len() implies rest.contains_key((#[trigger] d[i]).0) && rest[d[i].0]
        == d[i].1 by {
        assert(d[i] == a[i]);
        assert(text_less(a[i].0, a[a.len() - 1].0));
        lemma_less_total(a[i].0, a[i].0);
    }
    assert forall|k: Seq<char>| #[trigger] rest.contains_key(k) implies exists|i: int|
        0 <= i < d.len() && (#[trigger] d[i]).0 == k by {
        assert(m.contains_key(k));
        let i = choose|i: int| 0 <= i < a.len() && (#[trigger] a[i]).0 == k;
        assert(d[i].0 == k);
    }
}

impl<V: View> View for KeyTable<V> {
    type V = Map<Seq<char>, V::V>;

    closed spec fn view(&self) -> Map<Seq<char>, V::V> {
        rows_map(self.rows@)
    }
}

impl<V: View> KeyTable<V> {
    /// Keys are in order and none occurs twice.
    pub closed spec fn wf(&self) -> bool {
        sorted(self.rows@)
    }

    pub fn new() -> (r: KeyTable<V>)
        ensures
            r.wf(),
            r@ == Map::<Seq<char>, V::V>::empty(),
    {
        KeyTable { rows: Vec::new() }
    }

    pub fn len(&self) -> (r: usize)
        requires
            self.wf(),
        ensures
            r == self@.dom().len(),
    {
        proof {
            lemma_rows_map(self.rows@);
        }
        self.rows.len()
    }

    pub fn is_empty(&self) -> (r: bool)
        requires
            self.wf(),
        ensures
            r == (self@.dom().len() == 0),
    {
        proof {
            lemma_rows_map(self.rows@);
        }
        self.rows.is_empty()
    }

    /// Every row, keys ascending.
    pub fn rows(&self) -> (r: &[(String, V)])
        requires
            self.wf(),
        ensures
            row_views(r@) == listing(self@),
            lists(row_views(r@), self@),
    {
        proof {
            let rows = row_views(self.rows@);
            lemma_rows_map(self.rows@);
            assert forall|i: int| 0 <= i < rows.len() implies self@.contains_key((#[trigger] rows[i]).0)
                && self@[rows[i].0] == rows[i].1 by {
                assert(rows[i].0 == self.rows@[i].0@);
            }
            assert forall|k: Seq<char>| #[trigger] self@.contains_key(k) implies exists|i: int|
                0 <= i < rows.len() && (#[trigger] rows[i]).0 == k by {
                let i = choose|i: int| 0 <= i < self.rows@.len() && (#[trigger] self.rows@[i]).0@ == k;
                assert(rows[i].0 == k);
            }
            assert(lists(rows, self@));
            law_one_listing(rows, listing(self@), self@);
        }
        self.rows.as_slice()
    }

    /// How many rows come before `key`.
    fn place(&self, key: &str) -> (r: usize)
        requires
            self.wf(),
        ensures
            r <= self.rows@.len(),
            forall|i: int| 0 <= i < r ==> text_less((#[trigger] self.rows@[i]).0@, key@),
            forall|i: int|
                r <= i < self.rows@.len() ==> !text_less((#[trigger] self.rows@[i]).0@, key@),
    {
        let mut i: usize = 0;
        while i < self.rows.len() && less_str(self.rows[i].0.as_str(), key)
            invariant
                i <= self.rows@.len(),
                forall|j: int| 0 <= j < i ==> text_less((#[trigger] self.rows@[j]).0@, key@),
            decreases self.rows@.len() - i,
        {
            i += 1;
        }
        proof {
            assert forall|j: int| i <= j < self.rows@.len() implies !text_less(
                (#[trigger] self.rows@[j]).0@,
                key@,
            ) by {
                if j > i && text_less(self.rows@[j].0@, key@) {
                    assert(text_less(self.rows@[i as int].0@, self.rows@[j].0@));
                    lemma_less_transitive(self.rows@[i as int].0@, self.rows@[j].0@, key@);
                }
            }
        }
        i
    }

    pub fn get(&self, key: &str) -> (r: Option<&V>)
        requires
            self.wf(),
        ensures
            match r {
                Some(v) => self@.contains_key(key@) && self@[key@] == v@,
                None => !self@.contains_key(key@),
            },
    {
        let i: usize = self.place(key);
        proof {
            lemma_rows_map(self.rows@);
            lemma_less_total(key@, key@);
        }
        if i < self.rows.len() && same_str(self.rows[i].0.as_str(), key) {
            Some(&self.rows[i].1)
        } else {
            proof {
                if self@.contains_key(key@) {
                    let j = choose|j: int|
                        0 <= j < self.rows@.len() && (#[trigger] self.rows@[j]).0@ == key@;
                    if j > i {
                        assert(text_less(self.rows@[i as int].0@, self.rows@[j].0@));
                    }
                }
            }
            None
        }
    }

    pub fn insert(&mut self, key: String, value: V)
        requires
            old(self).wf(),
        ensures
            final(self).wf(),
            final(self)@ == old(self)@.insert(key@, value@),
    {
        let i: usize = self.place(key.as_str());
        let ghost before = self.rows@;
        proof {
            lemma_rows_map(before);
            lemma_less_total(key@, key@);
        }
        let hit = i < self.rows.len() && same_str(self.rows[i].0.as_str(), key.as_str());
        if hit {
            self.rows[i] = (key, value);
        } else {
            self.rows.insert(i, (key, value));
        }
        proof {
            let rows = self.rows@;
            assert forall|a: int, b: int| 0 <= a < b < rows.len() implies text_less(
                (#[trigger] rows[a]).0@,
                (#[trigger] rows[b]).0@,
            ) by {
                if hit {
                    assert(text_less(before[a].0@, before[b].0@));
                } else {
                    let (x, y) = (if a < i {
                        a
                    } else {
                        a - 1
                    }, if b < i {
                        b
                    } else {
                        b - 1
                    });
                    if a != i && b != i {
                        assert(text_less(before[x].0@, before[y].0@));
                    } else if a == i {
                        lemma_less_total(key@, before[y].0@);
                        if before[y].0@ == key@ && y > i {
                            assert(text_less(before[i as int].0@, before[y].0@));
                        }
                    }
                }
            }
            lemma_rows_map(rows);
            assert(self@ =~= old(self)@.insert(key@, value@)) by {
                assert forall|k: Seq<char>| self@.contains_key(k) == old(self)@.insert(
                    key@,
                    value@,
                ).contains_key(k) by {
                    if self@.contains_key(k) {
                        let j = choose|j: int| 0 <= j < rows.len() && (#[trigger] rows[j]).0@ == k;
                        if j != i {
                            let y = if hit || j < i {
                                j
                            } else {
                                j - 1
                            };
                            assert(before[y].0@ == k);
                        }
                    }
                    if old(self)@.contains_key(k) {
                        let j = choose|j: int|
                            0 <= j < before.len() && (#[trigger] before[j]).0@ == k;
                        let y = if hit || j < i {
                            j
                        } else {
                            j + 1
                        };
                        assert(rows[y].0@ == k);
                    }
                    assert(rows[i as int].0@ == key@);
                }
                assert forall|k: Seq<char>| self@.contains_key(k) implies #[trigger] self@[k]
                    == old(self)@.insert(key@, value@)[k] by {
                    let j = choose|j: int| 0 <= j < rows.len() && (#[trigger] rows[j]).0@ == k;
                    if j != i {
                        let y = if hit || j < i {
                            j
                        } else {
                            j - 1
                        };
                        assert(before[y] == rows[j]);
                        if j < i {
                            assert(text_less(rows[j].0@, rows[i as int].0@));
                        } else {
                            assert(text_less(rows[i as int].0@, rows[j].0@));
                        }
                    }
                }
            }
        }
    }

    pub fn remove(&mut self, key: &str)
        requires
            old(self).wf(),
        ensures
            final(self).wf(),
            final(self)@ == old(self)@.remove(key@),
    {
        let i: usize = self.place(key);
        let ghost before = self.rows@;
        proof {
            lemma_rows_map(before);
            lemma_less_total(key@, key@);
        }
        if i < self.rows.len() && same_str(self.rows[i].0.as_str(), key) {
            self.rows.remove(i);
            proof {
                let rows = self.rows@;
                assert forall|a: int, b: int| 0 <= a < b < rows.len() implies text_less(
                    (#[trigger] rows[a]).0@,
                    (#[trigger] rows[b]).0@,
                ) by {
                    let (x, y) = (if a < i {
                        a
                    } else {
                        a + 1
                    }, if b < i {
                        b
                    } else {
                        b + 1
                    });
                    assert(text_less(before[x].0@, before[y].0@));
                }
                lemma_rows_map(rows);
                assert forall|k: Seq<char>| self@.contains_key(k) == old(self)@.remove(
                    key@,
                ).contains_key(k) by {
                    if self@.contains_key(k) {
                        let j = choose|j: int| 0 <= j < rows.len() && (#[trigger] rows[j]).0@ == k;
                        let y = if j < i {
                            j
                        } else {
                            j + 1
                        };
                        assert(before[y].0@ == k);
                        if y < i {
                            assert(text_less(before[y].0@, before[i as int].0@));
                        } else {
                            assert(text_less(before[i as int].0@, before[y].0@));
                        }
                    }
                    if old(self)@.contains_key(k) && k != key@ {
                        let j = choose|j: int|
                            0 <= j < before.len() && (#[trigger] before[j]).0@ == k;
                        let y = if j < i {
                            j
                        } else {
                            j - 1
                        };
                        assert(rows[y].0@ == k);
                    }
                }
                assert forall|k: Seq<char>| self@.contains_key(k) implies #[trigger] self@[k]
                    == old(self)@[k] by {
                    let j = choose|j: int| 0 <= j < rows.len() && (#[trigger] rows[j]).0@ == k;
                    let y = if j < i {
                        j
                    } else {
                        j + 1
                    };
                    assert(before[y] == rows[j]);
                }
                assert(self@ =~= old(self)@.remove(key@));
            }
        } else {
            proof {
                if self@.contains_key(key@) {
                    let j = choose|j: int|
                        0 <= j < self.rows@.len() && (#[trigger] self.rows@[j]).0@ == key@;
                    if j > i {
                        assert(text_less(self.rows@[i as int].0@, self.rows@[j].0@));
                    }
                }
                assert(self@ =~= old(self)@.remove(key@));
            }
        }
    }
}

} // verus!
