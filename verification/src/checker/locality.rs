//! Why it is enough to check one key at a time: a history of the whole store
//! is linearizable exactly when the operations on every key are.

use crate::bytes::{law_lex_irreflexive, law_lex_total, law_lex_transitive};
use crate::checker::linearizability::{check_keys, insert_key, key_verdict, keys_of, ops_on, raised};
use crate::checker::operation::{model_step, OperationView, Reg};
use crate::checker::search::{covers, finishes, in_time, law_search_decides, legal, linearizable, search};
use crate::kvstore::machine::lookup;
use crate::text::{law_encoding_injective, text_less};
use vstd::prelude::*;

verus! {

/// The contents of the whole store.
pub type Store = Map<Seq<char>, Seq<char>>;

/// The store with one key set to a register's value.
pub open spec fn with_reg(m: Store, key: Seq<char>, r: Reg) -> Store {
    match r {
        Some(v) => m.insert(key, v),
        None => m.remove(key),
    }
}

/// The key of an operation that has one.
pub open spec fn key_at(ops: Seq<OperationView>, i: int) -> Seq<char> {
    ops[i].op.key()->Some_0
}

/// Apply one operation to the whole store.
pub open spec fn store_step(m: Store, o: OperationView) -> (bool, Store) {
    let key = o.op.key()->Some_0;
    let (ok, r) = model_step(lookup(m, key), o);
    (ok, with_reg(m, key, r))
}

/// Whether the store accepts the operations in this order.
pub open spec fn store_legal(ops: Seq<OperationView>, m: Store, order: Seq<int>) -> bool
    decreases order.len(),
{
    order.len() == 0 || (store_step(m, ops[order[0]]).0 && store_legal(
        ops,
        store_step(m, ops[order[0]]).1,
        order.drop_first(),
    ))
}

/// Whether a history of the whole store, which starts out empty, is
/// linearizable.
pub open spec fn store_linearizable(ops: Seq<OperationView>) -> bool {
    exists|order: Seq<int>|
        covers(ops.len(), Set::empty(), order) && in_time(ops, order) && #[trigger] store_legal(
            ops,
            Map::empty(),
            order,
        )
}

/// Whether every operation is about some key.
pub open spec fn all_keyed(ops: Seq<OperationView>) -> bool {
    forall|i: int| 0 <= i < ops.len() ==> (#[trigger] ops[i]).op.key() is Some
}

/// Whether an order holds exactly the operations about one key.
pub open spec fn covers_key(ops: Seq<OperationView>, key: Seq<char>, order: Seq<int>) -> bool {
    &&& order.no_duplicates()
    &&& forall|x: int| #[trigger]
        order.contains(x) <==> (0 <= x < ops.len() && ops[x].op.key() == Some(key))
}

/// Whether the operations about one key can be ordered, named by their places
/// in the whole history.
pub open spec fn key_linearizable(ops: Seq<OperationView>, key: Seq<char>) -> bool {
    exists|order: Seq<int>|
        covers_key(ops, key, order) && in_time(ops, order) && #[trigger] legal(ops, None, order)
}

// ---- from places in a partition to places in the history -----------------

/// The places of the operations about one key.
pub open spec fn places_of(ops: Seq<OperationView>, key: Seq<char>) -> Seq<int>
    decreases ops.len(),
{
    if ops.len() == 0 {
        Seq::empty()
    } else if ops.last().op.key() == Some(key) {
        places_of(ops.drop_last(), key).push(ops.len() - 1)
    } else {
        places_of(ops.drop_last(), key)
    }
}

proof fn lemma_places(ops: Seq<OperationView>, key: Seq<char>)
    ensures
        places_of(ops, key).len() == ops_on(ops, key).len(),
        forall|j: int|
            0 <= j < places_of(ops, key).len() ==> 0 <= #[trigger] places_of(ops, key)[j] < ops.len()
                && ops_on(ops, key)[j] == ops[places_of(ops, key)[j]] && ops[places_of(
                ops,
                key,
            )[j]].op.key() == Some(key),
        forall|i: int, j: int|
            0 <= i < j < places_of(ops, key).len() ==> #[trigger] places_of(ops, key)[i]
                < #[trigger] places_of(ops, key)[j],
        forall|x: int|
            0 <= x < ops.len() && (#[trigger] ops[x]).op.key() == Some(key) ==> places_of(
                ops,
                key,
            ).contains(x),
    decreases ops.len(),
{
    if ops.len() > 0 {
        let d = ops.drop_last();
        lemma_places(d, key);
        let (p, q) = (places_of(d, key), places_of(ops, key));
        assert forall|x: int|
            0 <= x < ops.len() && (#[trigger] ops[x]).op.key() == Some(key) implies q.contains(x) by {
            if x == ops.len() - 1 {
                assert(q[q.len() - 1] == x);
            } else {
                assert(d[x] == ops[x]);
                assert(p.contains(x));
                let j = choose|j: int| 0 <= j < p.len() && p[j] == x;
                assert(q[j] == x);
            }
        }
        assert forall|j: int| 0 <= j < q.len() implies 0 <= #[trigger] q[j] < ops.len() && ops_on(
            ops,
            key,
        )[j] == ops[q[j]] && ops[q[j]].op.key() == Some(key) by {
            if j < p.len() {
                assert(p[j] == q[j]);
                assert(d[p[j]] == ops[p[j]]);
            }
        }
        assert forall|i: int, j: int| 0 <= i < j < q.len() implies #[trigger] q[i]
            < #[trigger] q[j] by {
            if j < p.len() {
                assert(p[i] < p[j]);
            } else {
                assert(p[i] < d.len());
            }
        }
    }
}

/// An order renamed through a list of places.
pub open spec fn renamed(order: Seq<int>, names: Seq<int>) -> Seq<int> {
    order.map_values(|i: int| names[i])
}

proof fn lemma_legal_renamed(
    a: Seq<OperationView>,
    b: Seq<OperationView>,
    names: Seq<int>,
    state: Reg,
    order: Seq<int>,
)
    requires
        forall|i: int| 0 <= i < order.len() ==> a[#[trigger] order[i]] == b[names[order[i]]],
    ensures
        legal(a, state, order) == legal(b, state, renamed(order, names)),
    decreases order.len(),
{
    if order.len() > 0 {
        let rest = order.drop_first();
        assert(renamed(order, names).drop_first() =~= renamed(rest, names));
        assert(a[order[0]] == b[names[order[0]]]);
        assert forall|i: int| 0 <= i < rest.len() implies a[#[trigger] rest[i]] == b[names[rest[i]]] by {
            assert(rest[i] == order[i + 1]);
        }
        lemma_legal_renamed(a, b, names, model_step(state, a[order[0]]).1, rest);
    }
}

proof fn lemma_partition_to_key(ops: Seq<OperationView>, key: Seq<char>)
    requires
        linearizable(ops_on(ops, key)),
    ensures
        key_linearizable(ops, key),
{
    let part = ops_on(ops, key);
    let names = places_of(ops, key);
    lemma_places(ops, key);
    let order = choose|order: Seq<int>| finishes(part, Set::empty(), None, order);
    let r = renamed(order, names);
    assert forall|i: int| 0 <= i < order.len() implies 0 <= #[trigger] order[i] < part.len() by {
        assert(order.contains(order[i]));
    }
    lemma_legal_renamed(part, ops, names, None, order);
    assert(r.no_duplicates()) by {
        assert forall|i: int, j: int| 0 <= i < j < r.len() implies r[i] != r[j] by {
            assert(order[i] != order[j]);
            if order[i] < order[j] {
                assert(names[order[i]] < names[order[j]]);
            } else {
                assert(names[order[j]] < names[order[i]]);
            }
        }
    }
    assert forall|x: int| #[trigger] r.contains(x) <==> (0 <= x < ops.len() && ops[x].op.key()
        == Some(key)) by {
        if r.contains(x) {
            let i = choose|i: int| 0 <= i < r.len() && r[i] == x;
            assert(names[order[i]] == x);
        }
        if 0 <= x < ops.len() && ops[x].op.key() == Some(key) {
            assert(names.contains(x));
            let j = choose|j: int| 0 <= j < names.len() && names[j] == x;
            assert(order.contains(j));
            let i = choose|i: int| 0 <= i < order.len() && order[i] == j;
            assert(r[i] == x);
        }
    }
    assert forall|i: int, j: int| 0 <= i <= j < r.len() implies ops[#[trigger] r[j]].closes() > ops[
    #[trigger] r[i]].opens() by {
        assert(part[order[j]].closes() > part[order[i]].opens());
    }
    assert(covers_key(ops, key, r));
    assert(legal(ops, None, r));
}

proof fn lemma_key_to_partition(ops: Seq<OperationView>, key: Seq<char>)
    requires
        key_linearizable(ops, key),
    ensures
        linearizable(ops_on(ops, key)),
{
    let part = ops_on(ops, key);
    let names = places_of(ops, key);
    lemma_places(ops, key);
    let order = choose|order: Seq<int>|
        covers_key(ops, key, order) && in_time(ops, order) && #[trigger] legal(ops, None, order);
    let r = Seq::new(order.len(), |i: int| names.index_of(order[i]));
    assert forall|i: int| 0 <= i < order.len() implies 0 <= #[trigger] r[i] < names.len()
        && names[r[i]] == order[i] by {
        assert(order.contains(order[i]));
        assert(names.contains(order[i]));
    }
    assert(renamed(r, names) =~= order);
    assert forall|i: int| 0 <= i < r.len() implies part[#[trigger] r[i]] == ops[names[r[i]]] by {}
    lemma_legal_renamed(part, ops, names, None, r);
    assert(r.no_duplicates()) by {
        assert forall|i: int, j: int| 0 <= i < j < r.len() implies r[i] != r[j] by {
            assert(order[i] != order[j]);
        }
    }
    assert forall|x: int| #[trigger] r.contains(x) <==> (0 <= x < part.len() && !Set::<
        int,
    >::empty().contains(x)) by {
        if r.contains(x) {
            let i = choose|i: int| 0 <= i < r.len() && r[i] == x;
        }
        if 0 <= x < part.len() {
            assert(ops[names[x]].op.key() == Some(key));
            assert(order.contains(names[x]));
            let i = choose|i: int| 0 <= i < order.len() && order[i] == names[x];
            assert(names[r[i]] == names[x]);
            if r[i] < x {
                assert(names[r[i]] < names[x]);
            } else if x < r[i] {
                assert(names[x] < names[r[i]]);
            }
            assert(r[i] == x);
        }
    }
    assert forall|i: int, j: int| 0 <= i <= j < r.len() implies part[#[trigger] r[j]].closes() > part[
    #[trigger] r[i]].opens() by {
        assert(ops[order[j]].closes() > ops[order[i]].opens());
    }
    assert(finishes(part, Set::empty(), None, r));
}

// ---- from the store to its keys ------------------------------------------

/// The operations of an order that are about one key.
pub open spec fn pick(ops: Seq<OperationView>, key: Seq<char>, order: Seq<int>) -> Seq<int>
    decreases order.len(),
{
    if order.len() == 0 {
        Seq::empty()
    } else if ops[order[0]].op.key() == Some(key) {
        seq![order[0]] + pick(ops, key, order.drop_first())
    } else {
        pick(ops, key, order.drop_first())
    }
}

proof fn lemma_in_time_rest(ops: Seq<OperationView>, order: Seq<int>)
    requires
        in_time(ops, order),
        order.len() > 0,
    ensures
        in_time(ops, order.drop_first()),
{
    let rest = order.drop_first();
    assert forall|i: int, j: int| 0 <= i <= j < rest.len() implies ops[#[trigger] rest[j]].closes()
        > ops[#[trigger] rest[i]].opens() by {
        assert(ops[order[j + 1]].closes() > ops[order[i + 1]].opens());
    }
}

proof fn lemma_pick(ops: Seq<OperationView>, key: Seq<char>, order: Seq<int>)
    requires
        order.no_duplicates(),
        in_time(ops, order),
    ensures
        pick(ops, key, order).no_duplicates(),
        forall|x: int| #[trigger]
            pick(ops, key, order).contains(x) <==> order.contains(x) && ops[x].op.key() == Some(
                key,
            ),
        in_time(ops, pick(ops, key, order)),
    decreases order.len(),
{
    if order.len() > 0 {
        let first = order[0];
        let rest = order.drop_first();
        let (p, q) = (pick(ops, key, rest), pick(ops, key, order));
        assert(rest.no_duplicates()) by {
            assert forall|i: int, j: int| 0 <= i < j < rest.len() implies rest[i] != rest[j] by {
                assert(order[i + 1] != order[j + 1]);
            }
        }
        lemma_in_time_rest(ops, order);
        lemma_pick(ops, key, rest);
        assert forall|x: int| order.contains(x) <==> x == first || rest.contains(x) by {
            if order.contains(x) && x != first {
                let i = choose|i: int| 0 <= i < order.len() && order[i] == x;
                assert(rest[i - 1] == x);
            }
            if rest.contains(x) {
                let i = choose|i: int| 0 <= i < rest.len() && rest[i] == x;
                assert(order[i + 1] == x);
            }
            if x == first {
                assert(order[0] == x);
            }
        }
        assert(!rest.contains(first)) by {
            if rest.contains(first) {
                let i = choose|i: int| 0 <= i < rest.len() && rest[i] == first;
                assert(order[i + 1] == order[0]);
            }
        }
        if ops[first].op.key() == Some(key) {
            assert(q[0] == first);
            assert forall|x: int| #[trigger] q.contains(x) <==> x == first || p.contains(x) by {
                if q.contains(x) && x != first {
                    let i = choose|i: int| 0 <= i < q.len() && q[i] == x;
                    assert(p[i - 1] == x);
                }
                if p.contains(x) {
                    let i = choose|i: int| 0 <= i < p.len() && p[i] == x;
                    assert(q[i + 1] == x);
                }
            }
            assert(q.no_duplicates()) by {
                assert forall|i: int, j: int| 0 <= i < j < q.len() implies q[i] != q[j] by {
                    if i == 0 {
                        assert(p.contains(p[j - 1]));
                    } else {
                        assert(p[i - 1] != p[j - 1]);
                    }
                }
            }
            assert forall|i: int, j: int| 0 <= i <= j < q.len() implies ops[#[trigger] q[j]].closes()
                > ops[#[trigger] q[i]].opens() by {
                if i == 0 {
                    assert(q.contains(q[j]));
                    assert(order.contains(q[j]));
                    let k = choose|k: int| 0 <= k < order.len() && order[k] == q[j];
                    assert(ops[order[k]].closes() > ops[order[0]].opens());
                } else {
                    assert(ops[p[j - 1]].closes() > ops[p[i - 1]].opens());
                }
            }
        }
    }
}

proof fn lemma_pick_legal(ops: Seq<OperationView>, key: Seq<char>, m: Store, order: Seq<int>)
    requires
        store_legal(ops, m, order),
        forall|i: int| 0 <= i < order.len() ==> ops[#[trigger] order[i]].op.key() is Some,
    ensures
        legal(ops, lookup(m, key), pick(ops, key, order)),
    decreases order.len(),
{
    if order.len() > 0 {
        let rest = order.drop_first();
        let next = store_step(m, ops[order[0]]).1;
        assert(ops[order[0]].op.key() is Some);
        assert forall|i: int| 0 <= i < rest.len() implies ops[#[trigger] rest[i]].op.key() is Some by {
            assert(rest[i] == order[i + 1]);
        }
        lemma_pick_legal(ops, key, next, rest);
        if ops[order[0]].op.key() == Some(key) {
            let q = pick(ops, key, order);
            assert(q.drop_first() =~= pick(ops, key, rest));
            assert(q[0] == order[0]);
        }
    }
}

/// A linearizable history of the store is linearizable on every key.
proof fn lemma_store_to_keys(ops: Seq<OperationView>, key: Seq<char>)
    requires
        all_keyed(ops),
        store_linearizable(ops),
    ensures
        linearizable(ops_on(ops, key)),
{
    let order = choose|order: Seq<int>|
        covers(ops.len(), Set::empty(), order) && in_time(ops, order) && #[trigger] store_legal(
            ops,
            Map::empty(),
            order,
        );
    let q = pick(ops, key, order);
    lemma_pick(ops, key, order);
    assert forall|i: int| 0 <= i < order.len() implies ops[#[trigger] order[i]].op.key() is Some by {
        assert(order.contains(order[i]));
    }
    lemma_pick_legal(ops, key, Map::empty(), order);
    assert forall|x: int| #[trigger] q.contains(x) <==> (0 <= x < ops.len() && ops[x].op.key()
        == Some(key)) by {
        assert(order.contains(x) <==> 0 <= x < ops.len());
    }
    assert(covers_key(ops, key, q));
    assert(legal(ops, None, q));
    lemma_key_to_partition(ops, key);
}

// ---- from keys to the store ----------------------------------------------

/// Whether every operation of an order can be given a moment inside its
/// window so that the moments never decrease.
pub open spec fn timed(ops: Seq<OperationView>, order: Seq<int>, at: Seq<int>) -> bool {
    &&& at.len() == order.len()
    &&& forall|i: int|
        0 <= i < order.len() ==> ops[#[trigger] order[i]].opens() <= at[i] < ops[order[i]].closes()
    &&& forall|i: int, j: int| 0 <= i <= j < at.len() ==> #[trigger] at[i] <= #[trigger] at[j]
}

/// The latest invocation among the first `n` operations of an order.
pub open spec fn latest(ops: Seq<OperationView>, order: Seq<int>, n: int) -> int
    decreases n,
{
    if n <= 0 {
        0
    } else {
        let rest = latest(ops, order, n - 1);
        let here = ops[order[n - 1]].opens();
        if here > rest {
            here
        } else {
            rest
        }
    }
}

proof fn lemma_latest(ops: Seq<OperationView>, order: Seq<int>, n: int)
    requires
        0 <= n <= order.len(),
    ensures
        forall|i: int| 0 <= i < n ==> ops[#[trigger] order[i]].opens() <= latest(ops, order, n),
        latest(ops, order, n) == 0 || exists|i: int|
            0 <= i < n && ops[#[trigger] order[i]].opens() == latest(ops, order, n),
        n > 0 ==> exists|i: int|
            0 <= i < n && ops[#[trigger] order[i]].opens() >= latest(ops, order, n),
    decreases n,
{
    if n > 0 {
        lemma_latest(ops, order, n - 1);
        let here = ops[order[n - 1]].opens();
        let rest = latest(ops, order, n - 1);
        if here > rest {
            assert(ops[order[n - 1]].opens() == latest(ops, order, n));
        } else if rest == 0 {
            assert(ops[order[n - 1]].opens() >= latest(ops, order, n));
            assert(ops[order[n - 1]].opens() == 0);
        } else {
            let i = choose|i: int| 0 <= i < n - 1 && ops[#[trigger] order[i]].opens() == rest;
            assert(ops[order[i]].opens() == latest(ops, order, n));
        }
    }
}

proof fn lemma_latest_grows(ops: Seq<OperationView>, order: Seq<int>, m: int, n: int)
    requires
        0 <= m <= n,
    ensures
        latest(ops, order, m) <= latest(ops, order, n),
    decreases n - m,
{
    if m < n {
        lemma_latest_grows(ops, order, m, n - 1);
    }
}

proof fn lemma_in_time_timed(ops: Seq<OperationView>, order: Seq<int>) -> (at: Seq<int>)
    requires
        in_time(ops, order),
    ensures
        timed(ops, order, at),
{
    let at = Seq::new(order.len(), |i: int| latest(ops, order, i + 1));
    assert forall|i: int| 0 <= i < order.len() implies ops[#[trigger] order[i]].opens() <= at[i]
        < ops[order[i]].closes() by {
        lemma_latest(ops, order, i + 1);
        let j = choose|j: int|
            0 <= j < i + 1 && ops[#[trigger] order[j]].opens() >= latest(ops, order, i + 1);
        assert(ops[order[i]].closes() > ops[order[j]].opens());
    }
    assert forall|i: int, j: int| 0 <= i <= j < at.len() implies #[trigger] at[i]
        <= #[trigger] at[j] by {
        lemma_latest_grows(ops, order, i + 1, j + 1);
    }
    at
}

proof fn lemma_timed_in_time(ops: Seq<OperationView>, order: Seq<int>, at: Seq<int>)
    requires
        timed(ops, order, at),
    ensures
        in_time(ops, order),
{
    assert forall|i: int, j: int| 0 <= i <= j < order.len() implies ops[#[trigger] order[j]].closes()
        > ops[#[trigger] order[i]].opens() by {
        assert(at[i] <= at[j]);
    }
}

/// Two timed orders merged by their instants.
pub open spec fn merge(a: Seq<int>, s: Seq<int>, b: Seq<int>, t: Seq<int>) -> (Seq<int>, Seq<int>)
    decreases a.len() + b.len(),
{
    if a.len() == 0 {
        (b, t)
    } else if b.len() == 0 {
        (a, s)
    } else if s[0] <= t[0] {
        let (c, u) = merge(a.drop_first(), s.drop_first(), b, t);
        (seq![a[0]] + c, seq![s[0]] + u)
    } else {
        let (c, u) = merge(a, s, b.drop_first(), t.drop_first());
        (seq![b[0]] + c, seq![t[0]] + u)
    }
}

proof fn lemma_timed_rest(ops: Seq<OperationView>, order: Seq<int>, at: Seq<int>)
    requires
        timed(ops, order, at),
        order.len() > 0,
    ensures
        timed(ops, order.drop_first(), at.drop_first()),
{
    let (o, t) = (order.drop_first(), at.drop_first());
    assert forall|i: int| 0 <= i < o.len() implies ops[#[trigger] o[i]].opens() <= t[i]
        < ops[o[i]].closes() by {
        assert(o[i] == order[i + 1]);
    }
    assert forall|i: int, j: int| 0 <= i <= j < t.len() implies #[trigger] t[i] <= #[trigger] t[j] by {
        assert(at[i + 1] <= at[j + 1]);
    }
}

proof fn lemma_timed_cons(
    ops: Seq<OperationView>,
    x: int,
    at: int,
    order: Seq<int>,
    ts: Seq<int>,
)
    requires
        timed(ops, order, ts),
        ops[x].opens() <= at < ops[x].closes(),
        ts.len() > 0 ==> at <= ts[0],
    ensures
        timed(ops, seq![x] + order, seq![at] + ts),
{
    let (o, t) = (seq![x] + order, seq![at] + ts);
    assert forall|i: int| 0 <= i < o.len() implies ops[#[trigger] o[i]].opens() <= t[i]
        < ops[o[i]].closes() by {
        if i > 0 {
            assert(o[i] == order[i - 1]);
        }
    }
    assert forall|i: int, j: int| 0 <= i <= j < t.len() implies #[trigger] t[i] <= #[trigger] t[j] by {
        if i > 0 {
            assert(ts[i - 1] <= ts[j - 1]);
        } else if j > 0 {
            assert(ts[0] <= ts[j - 1]);
        }
    }
}

proof fn lemma_cons_contains(x: int, s: Seq<int>, y: int)
    ensures
        (seq![x] + s).contains(y) <==> y == x || s.contains(y),
{
    let c = seq![x] + s;
    if c.contains(y) && y != x {
        let i = choose|i: int| 0 <= i < c.len() && c[i] == y;
        assert(s[i - 1] == y);
    }
    if s.contains(y) {
        let i = choose|i: int| 0 <= i < s.len() && s[i] == y;
        assert(c[i + 1] == y);
    }
    if y == x {
        assert(c[0] == y);
    }
}

proof fn lemma_uncons_contains(s: Seq<int>, y: int)
    requires
        s.len() > 0,
    ensures
        s.contains(y) <==> y == s[0] || s.drop_first().contains(y),
{
    assert(s =~= seq![s[0]] + s.drop_first());
    lemma_cons_contains(s[0], s.drop_first(), y);
}

proof fn lemma_no_dup_rest(s: Seq<int>)
    requires
        s.no_duplicates(),
        s.len() > 0,
    ensures
        s.drop_first().no_duplicates(),
        !s.drop_first().contains(s[0]),
{
    let r = s.drop_first();
    assert forall|i: int, j: int| 0 <= i < j < r.len() implies r[i] != r[j] by {
        assert(s[i + 1] != s[j + 1]);
    }
    if r.contains(s[0]) {
        let i = choose|i: int| 0 <= i < r.len() && r[i] == s[0];
        assert(s[i + 1] == s[0]);
    }
}

proof fn lemma_no_dup_cons(x: int, s: Seq<int>)
    requires
        s.no_duplicates(),
        !s.contains(x),
    ensures
        (seq![x] + s).no_duplicates(),
{
    let c = seq![x] + s;
    assert forall|i: int, j: int| 0 <= i < j < c.len() implies c[i] != c[j] by {
        if i == 0 {
            assert(s[j - 1] == c[j]);
            assert(s.contains(s[j - 1]));
        } else {
            assert(s[i - 1] != s[j - 1]);
        }
    }
}

proof fn lemma_merge(
    ops: Seq<OperationView>,
    a: Seq<int>,
    s: Seq<int>,
    b: Seq<int>,
    t: Seq<int>,
)
    requires
        timed(ops, a, s),
        timed(ops, b, t),
        a.no_duplicates(),
        b.no_duplicates(),
        forall|x: int| a.contains(x) ==> !#[trigger] b.contains(x),
    ensures
        ({
            let (c, u) = merge(a, s, b, t);
            &&& timed(ops, c, u)
            &&& c.no_duplicates()
            &&& forall|x: int| #[trigger] c.contains(x) <==> a.contains(x) || b.contains(x)
            &&& u.len() > 0 ==> (a.len() > 0 && u[0] == s[0]) || (b.len() > 0 && u[0] == t[0])
            &&& a.len() > 0 && u.len() > 0 ==> u[0] <= s[0]
            &&& b.len() > 0 && u.len() > 0 ==> u[0] <= t[0]
        }),
    decreases a.len() + b.len(),
{
    if a.len() > 0 && b.len() > 0 {
        let (c, u) = merge(a, s, b, t);
        if s[0] <= t[0] {
            let (ar, sr) = (a.drop_first(), s.drop_first());
            lemma_timed_rest(ops, a, s);
            lemma_no_dup_rest(a);
            assert forall|x: int| ar.contains(x) implies !#[trigger] b.contains(x) by {
                lemma_uncons_contains(a, x);
            }
            lemma_merge(ops, ar, sr, b, t);
            let (cr, ur) = merge(ar, sr, b, t);
            if sr.len() > 0 {
                assert(s[0] <= s[1]);
            }
            lemma_timed_cons(ops, a[0], s[0], cr, ur);
            assert(a.contains(a[0]));
            lemma_no_dup_cons(a[0], cr);
            assert forall|x: int| #[trigger] c.contains(x) <==> a.contains(x) || b.contains(x) by {
                lemma_cons_contains(a[0], cr, x);
                lemma_uncons_contains(a, x);
            }
        } else {
            let (br, tr) = (b.drop_first(), t.drop_first());
            lemma_timed_rest(ops, b, t);
            lemma_no_dup_rest(b);
            assert forall|x: int| a.contains(x) implies !#[trigger] br.contains(x) by {
                lemma_uncons_contains(b, x);
                assert(!b.contains(x));
            }
            lemma_merge(ops, a, s, br, tr);
            let (cr, ur) = merge(a, s, br, tr);
            if tr.len() > 0 {
                assert(t[0] <= t[1]);
            }
            lemma_timed_cons(ops, b[0], t[0], cr, ur);
            assert(b.contains(b[0]));
            assert(!a.contains(b[0]));
            lemma_no_dup_cons(b[0], cr);
            assert forall|x: int| #[trigger] c.contains(x) <==> a.contains(x) || b.contains(x) by {
                lemma_cons_contains(b[0], cr, x);
                lemma_uncons_contains(b, x);
            }
        }
    }
}

/// Whether no operation of an order is about a key.
pub open spec fn avoids(ops: Seq<OperationView>, order: Seq<int>, key: Seq<char>) -> bool {
    forall|i: int|
        0 <= i < order.len() ==> ops[#[trigger] order[i]].op.key() is Some && ops[order[i]].op.key()
            != Some(key)
}

/// Whether every operation of an order is about a key.
pub open spec fn all_on(ops: Seq<OperationView>, order: Seq<int>, key: Seq<char>) -> bool {
    forall|i: int| 0 <= i < order.len() ==> ops[#[trigger] order[i]].op.key() == Some(key)
}

proof fn lemma_store_frame(
    ops: Seq<OperationView>,
    m: Store,
    n: Store,
    order: Seq<int>,
    key: Seq<char>,
)
    requires
        avoids(ops, order, key),
        forall|k: Seq<char>| k != key ==> #[trigger] lookup(m, k) == lookup(n, k),
    ensures
        store_legal(ops, m, order) == store_legal(ops, n, order),
    decreases order.len(),
{
    if order.len() > 0 {
        let o = ops[order[0]];
        assert(o.op.key() is Some && o.op.key() != Some(key));
        let k = o.op.key()->Some_0;
        assert(lookup(m, k) == lookup(n, k));
        let (p, q) = (store_step(m, o).1, store_step(n, o).1);
        assert forall|j: Seq<char>| j != key implies #[trigger] lookup(p, j) == lookup(q, j) by {
            assert(lookup(m, j) == lookup(n, j));
        }
        let rest = order.drop_first();
        assert forall|i: int| 0 <= i < rest.len() implies ops[#[trigger] rest[i]].op.key() is Some
            && ops[rest[i]].op.key() != Some(key) by {
            assert(rest[i] == order[i + 1]);
        }
        lemma_store_frame(ops, p, q, rest, key);
    }
}

proof fn lemma_key_alone(ops: Seq<OperationView>, m: Store, order: Seq<int>, key: Seq<char>)
    requires
        all_on(ops, order, key),
        legal(ops, lookup(m, key), order),
    ensures
        store_legal(ops, m, order),
    decreases order.len(),
{
    if order.len() > 0 {
        let o = ops[order[0]];
        assert(o.op.key() == Some(key));
        let rest = order.drop_first();
        assert forall|i: int| 0 <= i < rest.len() implies ops[#[trigger] rest[i]].op.key() == Some(
            key,
        ) by {
            assert(rest[i] == order[i + 1]);
        }
        lemma_key_alone(ops, store_step(m, o).1, rest, key);
    }
}

proof fn lemma_merge_legal(
    ops: Seq<OperationView>,
    m: Store,
    a: Seq<int>,
    s: Seq<int>,
    b: Seq<int>,
    t: Seq<int>,
    key: Seq<char>,
)
    requires
        avoids(ops, a, key),
        all_on(ops, b, key),
        store_legal(ops, m, a),
        legal(ops, lookup(m, key), b),
    ensures
        store_legal(ops, m, merge(a, s, b, t).0),
    decreases a.len() + b.len(),
{
    if a.len() == 0 {
        lemma_key_alone(ops, m, b, key);
    } else if b.len() == 0 {
    } else if s[0] <= t[0] {
        let o = ops[a[0]];
        let ar = a.drop_first();
        assert(o.op.key() is Some && o.op.key() != Some(key));
        assert forall|i: int| 0 <= i < ar.len() implies ops[#[trigger] ar[i]].op.key() is Some
            && ops[ar[i]].op.key() != Some(key) by {
            assert(ar[i] == a[i + 1]);
        }
        let n = store_step(m, o).1;
        assert(lookup(n, key) == lookup(m, key));
        lemma_merge_legal(ops, n, ar, s.drop_first(), b, t, key);
        let c = merge(a, s, b, t).0;
        assert(c.drop_first() =~= merge(ar, s.drop_first(), b, t).0);
        assert(c[0] == a[0]);
    } else {
        let o = ops[b[0]];
        let br = b.drop_first();
        assert(o.op.key() == Some(key));
        assert forall|i: int| 0 <= i < br.len() implies ops[#[trigger] br[i]].op.key() == Some(
            key,
        ) by {
            assert(br[i] == b[i + 1]);
        }
        let n = store_step(m, o).1;
        lemma_store_frame(ops, m, n, a, key);
        lemma_merge_legal(ops, n, a, s, br, t.drop_first(), key);
        let c = merge(a, s, b, t).0;
        assert(c.drop_first() =~= merge(a, s, br, t.drop_first()).0);
        assert(c[0] == b[0]);
    }
}

/// Whether `order` linearizes exactly the operations about the first `n` keys.
pub open spec fn partly(
    ops: Seq<OperationView>,
    keys: Seq<Seq<char>>,
    n: int,
    order: Seq<int>,
    at: Seq<int>,
) -> bool {
    &&& timed(ops, order, at)
    &&& order.no_duplicates()
    &&& store_legal(ops, Map::empty(), order)
    &&& forall|x: int| #[trigger]
        order.contains(x) <==> (0 <= x < ops.len() && exists|k: int|
            0 <= k < n && ops[x].op.key() == Some(#[trigger] keys[k]))
}

/// Whether keys are listed without repetition.
pub open spec fn distinct(keys: Seq<Seq<char>>) -> bool {
    forall|i: int, j: int| 0 <= i < j < keys.len() ==> #[trigger] keys[i] != #[trigger] keys[j]
}

proof fn lemma_keys_to_store(ops: Seq<OperationView>, keys: Seq<Seq<char>>, n: int) -> (r: (
    Seq<int>,
    Seq<int>,
))
    requires
        all_keyed(ops),
        distinct(keys),
        0 <= n <= keys.len(),
        forall|k: int| 0 <= k < keys.len() ==> linearizable(ops_on(ops, #[trigger] keys[k])),
    ensures
        partly(ops, keys, n, r.0, r.1),
    decreases n,
{
    if n == 0 {
        (Seq::empty(), Seq::empty())
    } else {
        let (a, s) = lemma_keys_to_store(ops, keys, n - 1);
        let key = keys[n - 1];
        lemma_partition_to_key(ops, key);
        let b = choose|order: Seq<int>|
            covers_key(ops, key, order) && in_time(ops, order) && #[trigger] legal(
                ops,
                None,
                order,
            );
        let t = lemma_in_time_timed(ops, b);
        assert forall|i: int| 0 <= i < b.len() implies ops[#[trigger] b[i]].op.key() == Some(
            key,
        ) by {
            assert(b.contains(b[i]));
        }
        assert forall|i: int| 0 <= i < a.len() implies ops[#[trigger] a[i]].op.key() is Some
            && ops[a[i]].op.key() != Some(key) by {
            assert(a.contains(a[i]));
            let k = choose|k: int|
                0 <= k < n - 1 && ops[a[i]].op.key() == Some(#[trigger] keys[k]);
            assert(keys[k] != keys[n - 1]);
        }
        assert forall|x: int| a.contains(x) implies !#[trigger] b.contains(x) by {
            let i = choose|i: int| 0 <= i < a.len() && a[i] == x;
            assert(ops[a[i]].op.key() != Some(key));
        }
        lemma_merge(ops, a, s, b, t);
        lemma_merge_legal(ops, Map::empty(), a, s, b, t, key);
        let (c, u) = merge(a, s, b, t);
        assert forall|x: int| #[trigger] c.contains(x) <==> (0 <= x < ops.len() && exists|k: int|
            0 <= k < n && ops[x].op.key() == Some(#[trigger] keys[k])) by {
            if a.contains(x) {
                let k = choose|k: int|
                    0 <= k < n - 1 && ops[x].op.key() == Some(#[trigger] keys[k]);
                assert(ops[x].op.key() == Some(keys[k]));
            }
            if b.contains(x) {
                assert(ops[x].op.key() == Some(keys[n - 1]));
            }
            if 0 <= x < ops.len() && exists|k: int|
                0 <= k < n && ops[x].op.key() == Some(#[trigger] keys[k]) {
                let k = choose|k: int| 0 <= k < n && ops[x].op.key() == Some(#[trigger] keys[k]);
                if k == n - 1 {
                    assert(b.contains(x));
                } else {
                    assert(a.contains(x));
                }
            }
        }
        (c, u)
    }
}

proof fn lemma_insert_key(keys: Seq<Seq<char>>, key: Seq<char>)
    requires
        ordered_keys(keys),
    ensures
        ordered_keys(insert_key(keys, key)),
        forall|k: Seq<char>| #[trigger]
            insert_key(keys, key).contains(k) <==> k == key || keys.contains(k),
    decreases keys.len(),
{
    let r = insert_key(keys, key);
    if keys.len() == 0 {
        assert(r =~= seq![key]);
        assert(r[0] == key);
    } else if text_less(keys.last(), key) {
        assert forall|i: int, j: int| 0 <= i < j < r.len() implies text_less(
            #[trigger] r[i],
            #[trigger] r[j],
        ) by {
            if j == keys.len() && i < keys.len() - 1 {
                assert(text_less(keys[i], keys[keys.len() - 1]));
                law_lex_transitive(
                    vstd::utf8::encode_utf8(keys[i]),
                    vstd::utf8::encode_utf8(keys.last()),
                    vstd::utf8::encode_utf8(key),
                );
            }
        }
        assert forall|k: Seq<char>| #[trigger] r.contains(k) <==> k == key || keys.contains(k) by {
            if r.contains(k) && k != key {
                let i = choose|i: int| 0 <= i < r.len() && r[i] == k;
                assert(keys[i] == k);
            }
            if keys.contains(k) {
                let i = choose|i: int| 0 <= i < keys.len() && keys[i] == k;
                assert(r[i] == k);
            }
            if k == key {
                assert(r[keys.len() as int] == k);
            }
        }
    } else if keys.last() == key {
        assert(keys[keys.len() - 1] == key);
    } else {
        let d = keys.drop_last();
        let last = keys.last();
        assert(ordered_keys(d)) by {
            assert forall|i: int, j: int| 0 <= i < j < d.len() implies text_less(
                #[trigger] d[i],
                #[trigger] d[j],
            ) by {
                assert(text_less(keys[i], keys[j]));
            }
        }
        lemma_insert_key(d, key);
        let q = insert_key(d, key);
        law_lex_total(
            vstd::utf8::encode_utf8(key),
            vstd::utf8::encode_utf8(last),
        );
        if vstd::utf8::encode_utf8(key) == vstd::utf8::encode_utf8(last) {
            law_encoding_injective(key, last);
        }
        assert forall|i: int, j: int| 0 <= i < j < r.len() implies text_less(
            #[trigger] r[i],
            #[trigger] r[j],
        ) by {
            if j < q.len() {
                assert(text_less(q[i], q[j]));
            } else {
                assert(q.contains(q[i]));
                if q[i] != key {
                    let k = choose|k: int| 0 <= k < d.len() && d[k] == q[i];
                    assert(text_less(keys[k], keys[keys.len() - 1]));
                }
            }
        }
        assert forall|k: Seq<char>| #[trigger] r.contains(k) <==> k == key || keys.contains(k) by {
            if r.contains(k) {
                let i = choose|i: int| 0 <= i < r.len() && r[i] == k;
                if i < q.len() {
                    assert(q[i] == k);
                    assert(q.contains(k));
                    if k != key {
                        let j = choose|j: int| 0 <= j < d.len() && d[j] == k;
                        assert(keys[j] == k);
                    }
                } else {
                    assert(keys[keys.len() - 1] == k);
                }
            }
            if k == key || keys.contains(k) {
                if k == last {
                    assert(r[r.len() - 1] == k);
                } else {
                    if keys.contains(k) {
                        let j = choose|j: int| 0 <= j < keys.len() && keys[j] == k;
                        assert(d[j] == k);
                        assert(d.contains(k));
                    }
                    assert(q.contains(k));
                    let i = choose|i: int| 0 <= i < q.len() && q[i] == k;
                    assert(r[i] == k);
                }
            }
        }
    }
}

/// Whether keys are in strictly ascending order.
pub open spec fn ordered_keys(keys: Seq<Seq<char>>) -> bool {
    forall|i: int, j: int|
        0 <= i < j < keys.len() ==> text_less(#[trigger] keys[i], #[trigger] keys[j])
}

/// The keys a history is partitioned by are in order, and are exactly those
/// that some operation is about.
pub proof fn law_keys_of(ops: Seq<OperationView>)
    ensures
        ordered_keys(keys_of(ops)),
        forall|k: Seq<char>| #[trigger]
            keys_of(ops).contains(k) <==> exists|i: int|
                0 <= i < ops.len() && (#[trigger] ops[i]).op.key() == Some(k),
    decreases ops.len(),
{
    if ops.len() > 0 {
        let d = ops.drop_last();
        law_keys_of(d);
        let last = ops.last().op.key();
        if last is Some {
            lemma_insert_key(keys_of(d), last->Some_0);
        }
        assert forall|k: Seq<char>| #[trigger] keys_of(ops).contains(k) <==> exists|i: int|
            0 <= i < ops.len() && (#[trigger] ops[i]).op.key() == Some(k) by {
            assert(keys_of(ops).contains(k) <==> last == Some(k) || keys_of(d).contains(k));
            if keys_of(d).contains(k) {
                let i = choose|i: int| 0 <= i < d.len() && (#[trigger] d[i]).op.key() == Some(k);
                assert(ops[i].op.key() == Some(k));
            }
            if last == Some(k) {
                assert(ops[ops.len() - 1].op.key() == Some(k));
            }
            if exists|i: int| 0 <= i < ops.len() && (#[trigger] ops[i]).op.key() == Some(k) {
                let i = choose|i: int|
                    0 <= i < ops.len() && (#[trigger] ops[i]).op.key() == Some(k);
                if i < d.len() {
                    assert(d[i].op.key() == Some(k));
                }
            }
        }
    }
}

proof fn lemma_ordered_distinct(keys: Seq<Seq<char>>)
    requires
        ordered_keys(keys),
    ensures
        distinct(keys),
{
    assert forall|i: int, j: int| 0 <= i < j < keys.len() implies #[trigger] keys[i]
        != #[trigger] keys[j] by {
        assert(text_less(keys[i], keys[j]));
        law_lex_irreflexive(vstd::utf8::encode_utf8(keys[i]));
    }
}

/// Locality: a history in which every operation is about some key is
/// linearizable exactly when the operations on each key are.
pub proof fn law_locality(ops: Seq<OperationView>)
    requires
        all_keyed(ops),
    ensures
        store_linearizable(ops) <==> forall|key: Seq<char>|
            linearizable(#[trigger] ops_on(ops, key)),
{
    if store_linearizable(ops) {
        assert forall|key: Seq<char>| linearizable(#[trigger] ops_on(ops, key)) by {
            lemma_store_to_keys(ops, key);
        }
    }
    if forall|key: Seq<char>| linearizable(#[trigger] ops_on(ops, key)) {
        lemma_all_keys_to_store(ops);
    }
}

proof fn lemma_all_keys_to_store(ops: Seq<OperationView>)
    requires
        all_keyed(ops),
        forall|k: int|
            0 <= k < keys_of(ops).len() ==> linearizable(ops_on(ops, #[trigger] keys_of(ops)[k])),
    ensures
        store_linearizable(ops),
{
    let keys = keys_of(ops);
    law_keys_of(ops);
    lemma_ordered_distinct(keys);
    let (order, at) = lemma_keys_to_store(ops, keys, keys.len() as int);
    lemma_timed_in_time(ops, order, at);
    assert forall|x: int| #[trigger] order.contains(x) <==> (0 <= x < ops.len() && !Set::<
        int,
    >::empty().contains(x)) by {
        if 0 <= x < ops.len() {
            let k = key_at(ops, x);
            assert(ops[x].op.key() == Some(k));
            assert(keys.contains(k));
            let j = choose|j: int| 0 <= j < keys.len() && keys[j] == k;
            assert(ops[x].op.key() == Some(keys[j]));
        }
    }
    assert(covers(ops.len(), Set::empty(), order));
}

proof fn lemma_check_keys(
    ops: Seq<OperationView>,
    keys: Seq<Seq<char>>,
    i: int,
    budget: u64,
    steps: u64,
)
    requires
        0 <= i <= keys.len(),
    ensures
        ({
            let v = check_keys(ops, keys, i, budget, steps).0;
            &&& v is Linearizable ==> forall|k: int|
                i <= k < keys.len() ==> linearizable(ops_on(ops, #[trigger] keys[k]))
            &&& v is Violation ==> exists|k: int|
                i <= k < keys.len() && v->Violation_key == #[trigger] keys[k] && !linearizable(
                    ops_on(ops, keys[k]),
                )
            &&& v is Unknown ==> exists|k: int|
                i <= k < keys.len() && v->Unknown_key == #[trigger] keys[k] && search(
                    ops_on(ops, keys[k]),
                    budget as nat,
                ).1 > budget
        }),
    decreases keys.len() - i,
{
    if i < keys.len() {
        let part = ops_on(ops, keys[i]);
        law_search_decides(part, budget as nat);
        let (verdict, moves) = key_verdict(keys[i], part, budget);
        if verdict is Linearizable {
            lemma_check_keys(ops, keys, i + 1, budget, raised(steps, moves));
            let v = check_keys(ops, keys, i, budget, steps).0;
            if v is Violation {
                let k = choose|k: int|
                    i + 1 <= k < keys.len() && v->Violation_key == #[trigger] keys[k]
                        && !linearizable(ops_on(ops, keys[k]));
                assert(v->Violation_key == keys[k]);
            }
            if v is Unknown {
                let k = choose|k: int|
                    i + 1 <= k < keys.len() && v->Unknown_key == #[trigger] keys[k] && search(
                        ops_on(ops, keys[k]),
                        budget as nat,
                    ).1 > budget;
                assert(v->Unknown_key == keys[k]);
            }
        }
    }
}

/// The verdict on a whole history is right: a history found linearizable is,
/// one reported as a violation is not, and the key it names has no
/// linearization; no verdict is given only where some key's search went past
/// its budget.
pub proof fn law_check_decides(ops: Seq<OperationView>, budget: u64, steps: u64)
    requires
        all_keyed(ops),
    ensures
        ({
            let v = check_keys(ops, keys_of(ops), 0, budget, steps).0;
            &&& v is Linearizable ==> store_linearizable(ops)
            &&& v is Violation ==> !store_linearizable(ops) && !linearizable(
                ops_on(ops, v->Violation_key),
            )
            &&& v is Unknown ==> search(ops_on(ops, v->Unknown_key), budget as nat).1 > budget
        }),
{
    lemma_check_keys(ops, keys_of(ops), 0, budget, steps);
    let v = check_keys(ops, keys_of(ops), 0, budget, steps).0;
    if v is Linearizable {
        lemma_all_keys_to_store(ops);
    }
    if v is Violation {
        law_locality(ops);
    }
}

} // verus!
