//! The search for a linearization, as a mathematical machine, and what its
//! verdicts mean.
//!
//! A history of one key is linearizable if its operations can be put in one
//! order that the model accepts step by step and that contradicts no clock: an
//! operation that was over when another began comes before it. The machine
//! walks a timeline of calls and returns. At a call it may linearize the
//! operation, unless the model refuses it there or the same set of operations
//! has already led to the same state; at the return of an operation that is not
//! linearized yet, the current prefix is dead and the last choice is undone.

use crate::checker::operation::{model_step, OperationView, Reg};
use crate::sort::{arranges, law_stable_order, lemma_arranged_place, stable_order, Key};
use vstd::prelude::*;

verus! {

// ---- what is to be decided -----------------------------------------------

/// Whether the model accepts the operations in this order from `state` on.
pub open spec fn legal(ops: Seq<OperationView>, state: Reg, order: Seq<int>) -> bool
    decreases order.len(),
{
    order.len() == 0 || (model_step(state, ops[order[0]]).0 && legal(
        ops,
        model_step(state, ops[order[0]]).1,
        order.drop_first(),
    ))
}

/// Whether an order respects time: nothing is placed behind an operation that
/// began when it was already over, and nothing was over before it began itself.
pub open spec fn in_time(ops: Seq<OperationView>, order: Seq<int>) -> bool {
    forall|i: int, j: int|
        0 <= i <= j < order.len() ==> ops[#[trigger] order[j]].closes() > ops[#[trigger] order[i]].opens()
}

/// Respecting time, in terms of the clock: every operation placed returned no
/// earlier than it was invoked, and none stands behind one it precedes.
pub proof fn law_in_time(ops: Seq<OperationView>, order: Seq<int>)
    ensures
        in_time(ops, order) <==> {
            &&& forall|i: int|
                0 <= i < order.len() ==> ops[#[trigger] order[i]].invoked <= ops[order[i]].end()
            &&& forall|i: int, j: int|
                0 <= i < j < order.len() ==> !ops[#[trigger] order[j]].precedes(
                    ops[#[trigger] order[i]],
                )
        },
{
    if in_time(ops, order) {
        assert forall|i: int| 0 <= i < order.len() implies ops[#[trigger] order[i]].invoked
            <= ops[order[i]].end() by {
            assert(ops[order[i]].closes() > ops[order[i]].opens());
        }
        assert forall|i: int, j: int| 0 <= i < j < order.len() implies !ops[
        #[trigger] order[j]].precedes(ops[#[trigger] order[i]]) by {
            assert(ops[order[j]].closes() > ops[order[i]].opens());
        }
    }
}

/// Whether an order holds exactly the operations that are not done, each once.
pub open spec fn covers(n: nat, done: Set<int>, order: Seq<int>) -> bool {
    &&& order.no_duplicates()
    &&& forall|x: int| #[trigger] order.contains(x) <==> (0 <= x < n && !done.contains(x))
}

/// Whether an order of the remaining operations finishes the linearization.
pub open spec fn finishes(
    ops: Seq<OperationView>,
    done: Set<int>,
    state: Reg,
    order: Seq<int>,
) -> bool {
    covers(ops.len(), done, order) && in_time(ops, order) && legal(ops, state, order)
}

/// Whether the linearization can be finished from here.
pub open spec fn extendable(ops: Seq<OperationView>, done: Set<int>, state: Reg) -> bool {
    exists|order: Seq<int>| finishes(ops, done, state, order)
}

/// Whether the operations on one key, which starts out absent, are
/// linearizable.
pub open spec fn linearizable(ops: Seq<OperationView>) -> bool {
    extendable(ops, Set::empty(), None)
}

// ---- the timeline --------------------------------------------------------

/// The keys of the timeline: operation `i` gives a call at `2 * i` and a
/// return at `2 * i + 1`. At equal times the returns of what began earlier come
/// first, then the calls and behind them the returns of operations that lasted
/// no longer than that instant, then the calls of what went on.
pub open spec fn mark_key(ops: Seq<OperationView>, e: int) -> Key {
    let o = ops[e / 2];
    if e % 2 == 0 {
        Key {
            first: o.invoked,
            second: if o.instant() {
                1
            } else {
                3
            },
            third: o.id,
        }
    } else {
        Key {
            first: o.end(),
            second: if o.instant() {
                2
            } else {
                0
            },
            third: o.id,
        }
    }
}

/// The keys of all marks.
pub open spec fn mark_keys(ops: Seq<OperationView>) -> Seq<Key> {
    Seq::new(2 * ops.len(), |e: int| mark_key(ops, e))
}

/// All marks in time order.
pub open spec fn timeline(ops: Seq<OperationView>) -> Seq<int> {
    stable_order(mark_keys(ops), 2 * ops.len())
}

/// What the search needs of a timeline: every mark has one place, and a return
/// comes before a call exactly where the one operation was over when the other
/// began.
pub open spec fn is_timeline(ops: Seq<OperationView>, tl: Seq<int>) -> bool {
    &&& arranges(tl, 2 * ops.len())
    &&& forall|e: int| 0 <= e < 2 * ops.len() ==> #[trigger] tl.contains(e)
    &&& forall|p: int, q: int|
        0 <= p < tl.len() && 0 <= q < tl.len() && tl[p] % 2 == 1 && tl[q] % 2 == 0 ==> (p < q <==> (
        ops[#[trigger] tl[p] / 2].closes() <= ops[#[trigger] tl[q] / 2].opens()))
}

/// The sorted marks are a timeline.
pub proof fn lemma_timeline(ops: Seq<OperationView>)
    ensures
        is_timeline(ops, timeline(ops)),
{
    let keys = mark_keys(ops);
    let tl = timeline(ops);
    law_stable_order(keys, 2 * ops.len());
    assert forall|e: int| 0 <= e < 2 * ops.len() implies #[trigger] tl.contains(e) by {
        lemma_arranged_place(tl, 2 * ops.len(), e);
    }
    assert forall|p: int, q: int|
        0 <= p < tl.len() && 0 <= q < tl.len() && tl[p] % 2 == 1 && tl[q] % 2 == 0 implies (p < q
        <==> (ops[#[trigger] tl[p] / 2].closes() <= ops[#[trigger] tl[q] / 2].opens())) by {
        if p < q {
            assert(keys[tl[p]].le(keys[tl[q]]));
        } else {
            assert(p != q);
            assert(keys[tl[q]].le(keys[tl[p]]));
        }
    }
}

/// Whether the mark at `p` belongs to an operation that is not linearized.
pub open spec fn live(tl: Seq<int>, done: Set<int>, p: int) -> bool {
    0 <= p < tl.len() && !done.contains(tl[p] / 2)
}

/// The first live mark at or after `from`; past the end, the end.
pub open spec fn next_live(tl: Seq<int>, done: Set<int>, from: int) -> int
    decreases tl.len() - from,
{
    if from >= tl.len() {
        tl.len() as int
    } else if live(tl, done, from) {
        from
    } else {
        next_live(tl, done, from + 1)
    }
}

pub proof fn lemma_next_live(tl: Seq<int>, done: Set<int>, from: int)
    requires
        0 <= from <= tl.len(),
    ensures
        from <= next_live(tl, done, from) <= tl.len(),
        next_live(tl, done, from) < tl.len() ==> live(tl, done, next_live(tl, done, from)),
        forall|p: int|
            from <= p < next_live(tl, done, from) ==> !#[trigger] live(tl, done, p),
    decreases tl.len() - from,
{
    if from < tl.len() && !live(tl, done, from) {
        lemma_next_live(tl, done, from + 1);
    }
}

// ---- the machine ---------------------------------------------------------

/// A choice the search has made: where in the timeline the call stands, and
/// the state before it.
pub struct Choice {
    pub call: int,
    pub prior: Reg,
}

/// Where the search stands.
pub struct Search {
    pub path: Seq<Choice>,
    pub done: Set<int>,
    pub state: Reg,
    /// The mark under consideration; the length of the timeline once every
    /// mark has been dealt with.
    pub at: int,
    /// Every set of operations and state the search has ever entered.
    pub seen: Set<(Set<int>, Reg)>,
}

/// What one move of the search leads to.
pub enum Move {
    Next(Search),
    /// No choice is left to undo, and this operation cannot be placed.
    Stuck(int),
}

/// Where the search begins.
pub open spec fn start(tl: Seq<int>) -> Search {
    Search {
        path: Seq::empty(),
        done: Set::empty(),
        state: None,
        at: next_live(tl, Set::empty(), 0),
        seen: Set::empty(),
    }
}

/// One move of the search from a mark within the timeline.
pub open spec fn advance(ops: Seq<OperationView>, tl: Seq<int>, s: Search) -> Move {
    let i = tl[s.at] / 2;
    if tl[s.at] % 2 == 0 {
        let (ok, state) = model_step(s.state, ops[i]);
        let done = s.done.insert(i);
        if ok && !s.seen.contains((done, state)) {
            Move::Next(
                Search {
                    path: s.path.push(Choice { call: s.at, prior: s.state }),
                    done,
                    state,
                    at: next_live(tl, done, 0),
                    seen: s.seen.insert((done, state)),
                },
            )
        } else {
            Move::Next(Search { at: next_live(tl, s.done, s.at + 1), ..s })
        }
    } else if s.path.len() == 0 {
        Move::Stuck(i)
    } else {
        let last = s.path.last();
        let done = s.done.remove(tl[last.call] / 2);
        Move::Next(
            Search {
                path: s.path.drop_last(),
                done,
                state: last.prior,
                at: next_live(tl, done, last.call + 1),
                seen: s.seen,
            },
        )
    }
}

/// How a search can end.
pub enum SearchEnd {
    Found,
    Stuck(int),
    OutOfBudget,
}

/// Run the search for at most `left` more moves: how it ends, and how many
/// moves it began.
pub open spec fn run(ops: Seq<OperationView>, tl: Seq<int>, s: Search, left: nat) -> (
    SearchEnd,
    nat,
)
    decreases left,
{
    if s.at >= tl.len() {
        (SearchEnd::Found, 0)
    } else if left == 0 {
        (SearchEnd::OutOfBudget, 1)
    } else {
        match advance(ops, tl, s) {
            Move::Stuck(i) => (SearchEnd::Stuck(i), 1),
            Move::Next(t) => {
                let (end, moves) = run(ops, tl, t, (left - 1) as nat);
                (end, moves + 1)
            },
        }
    }
}

/// Search the operations on one key with a budget of moves.
pub open spec fn search(ops: Seq<OperationView>, budget: nat) -> (SearchEnd, nat) {
    run(ops, timeline(ops), start(timeline(ops)), budget)
}

// ---- why the verdicts are right ------------------------------------------

/// The operations linearized by the first `k` choices.
pub open spec fn done_by(tl: Seq<int>, path: Seq<Choice>, k: int) -> Set<int>
    decreases k,
{
    if k <= 0 {
        Set::empty()
    } else {
        done_by(tl, path, k - 1).insert(tl[path[k - 1].call] / 2)
    }
}

/// The state after the first `k` choices.
pub open spec fn state_by(s: Search, k: int) -> Reg {
    if k < s.path.len() {
        s.path[k].prior
    } else {
        s.state
    }
}

/// The mark under consideration after the first `k` choices.
pub open spec fn at_by(s: Search, k: int) -> int {
    if k < s.path.len() {
        s.path[k].call
    } else {
        s.at
    }
}

/// Whether linearizing operation `i` next leads nowhere.
pub open spec fn hopeless(ops: Seq<OperationView>, done: Set<int>, state: Reg, i: int) -> bool {
    let (ok, next) = model_step(state, ops[i]);
    !ok || !extendable(ops, done.insert(i), next)
}

/// Whether a configuration is one the current path goes through.
pub open spec fn on_path(tl: Seq<int>, s: Search, c: (Set<int>, Reg)) -> bool {
    exists|k: int|
        1 <= k <= s.path.len() && c == (#[trigger] done_by(tl, s.path, k), state_by(s, k))
}

/// What holds at every level of the path: the choice made there was open and
/// accepted, and everything before it was tried in vain.
pub open spec fn level_ok(ops: Seq<OperationView>, tl: Seq<int>, s: Search, k: int) -> bool {
    let done = done_by(tl, s.path, k);
    &&& k < s.path.len() ==> {
        let c = s.path[k].call;
        &&& live(tl, done, c)
        &&& tl[c] % 2 == 0
        &&& model_step(s.path[k].prior, ops[tl[c] / 2]) == (true, state_by(s, k + 1))
    }
    &&& forall|p: int|
        p < at_by(s, k) && #[trigger] live(tl, done, p) ==> tl[p] % 2 == 0 && hopeless(
            ops,
            done,
            state_by(s, k),
            tl[p] / 2,
        )
}

/// What holds of the search at all times.
pub open spec fn sound(ops: Seq<OperationView>, tl: Seq<int>, s: Search) -> bool {
    &&& is_timeline(ops, tl)
    &&& s.done == done_by(tl, s.path, s.path.len() as int)
    &&& state_by(s, 0) == None::<Seq<char>>
    &&& 0 <= s.at <= tl.len()
    &&& s.at < tl.len() ==> live(tl, s.done, s.at)
    &&& forall|k: int| 0 <= k <= s.path.len() ==> #[trigger] level_ok(ops, tl, s, k)
    &&& forall|c: (Set<int>, Reg)| #[trigger]
        s.seen.contains(c) ==> on_path(tl, s, c) || !extendable(ops, c.0, c.1)
}

proof fn lemma_done_by_prefix(tl: Seq<int>, a: Seq<Choice>, b: Seq<Choice>, k: int)
    requires
        0 <= k <= a.len(),
        k <= b.len(),
        forall|j: int| 0 <= j < k ==> a[j] == b[j],
    ensures
        done_by(tl, a, k) == done_by(tl, b, k),
    decreases k,
{
    if k > 0 {
        lemma_done_by_prefix(tl, a, b, k - 1);
    }
}

proof fn lemma_done_by_member(tl: Seq<int>, path: Seq<Choice>, k: int, i: int)
    requires
        0 <= k <= path.len(),
    ensures
        done_by(tl, path, k).contains(i) <==> exists|j: int|
            0 <= j < k && #[trigger] (tl[path[j].call] / 2) == i,
    decreases k,
{
    if k > 0 {
        lemma_done_by_member(tl, path, k - 1, i);
        if done_by(tl, path, k).contains(i) && !done_by(tl, path, k - 1).contains(i) {
            assert(tl[path[k - 1].call] / 2 == i);
        }
        if exists|j: int| 0 <= j < k && #[trigger] (tl[path[j].call] / 2) == i {
            let j = choose|j: int| 0 <= j < k && #[trigger] (tl[path[j].call] / 2) == i;
            if j < k - 1 {
                assert(tl[path[j].call] / 2 == i);
            }
        }
    }
}

proof fn lemma_done_by_size(ops: Seq<OperationView>, tl: Seq<int>, s: Search, k: int)
    requires
        0 <= k <= s.path.len(),
        forall|j: int| 0 <= j <= s.path.len() ==> #[trigger] level_ok(ops, tl, s, j),
    ensures
        done_by(tl, s.path, k).finite(),
        done_by(tl, s.path, k).len() == k,
    decreases k,
{
    if k > 0 {
        lemma_done_by_size(ops, tl, s, k - 1);
        assert(level_ok(ops, tl, s, k - 1));
    }
}

proof fn lemma_start_sound(ops: Seq<OperationView>, tl: Seq<int>)
    requires
        is_timeline(ops, tl),
    ensures
        sound(ops, tl, start(tl)),
{
    let s = start(tl);
    lemma_next_live(tl, Set::empty(), 0);
    assert(level_ok(ops, tl, s, 0));
}

/// Where the position of a mark is needed.
proof fn lemma_place(ops: Seq<OperationView>, tl: Seq<int>, e: int) -> (p: int)
    requires
        is_timeline(ops, tl),
        0 <= e < 2 * ops.len(),
    ensures
        0 <= p < tl.len(),
        tl[p] == e,
{
    assert(tl.contains(e));
    choose|p: int| 0 <= p < tl.len() && tl[p] == e
}

/// A configuration is dead once the scan stands at the return of an operation
/// that is not linearized and everything before it was tried.
proof fn lemma_dead_end(ops: Seq<OperationView>, tl: Seq<int>, s: Search)
    requires
        sound(ops, tl, s),
        s.at < tl.len(),
        tl[s.at] % 2 == 1,
    ensures
        !extendable(ops, s.done, s.state),
{
    if extendable(ops, s.done, s.state) {
        let order = choose|order: Seq<int>| finishes(ops, s.done, s.state, order);
        let r = tl[s.at] / 2;
        assert(0 <= r < ops.len() && !s.done.contains(r));
        assert(order.contains(r));
        let j = choose|j: int| 0 <= j < order.len() && order[j] == r;
        let first = order[0];
        assert(order.contains(first));
        // The first operation of the order began before `r` was over, so its
        // call stands before the mark under consideration and was tried.
        assert(ops[order[j]].closes() > ops[order[0]].opens());
        let c = lemma_place(ops, tl, 2 * first);
        assert(tl[c] / 2 == first && tl[c] % 2 == 0);
        assert(tl[s.at] / 2 == r);
        assert(c < s.at);
        assert(live(tl, s.done, c));
        assert(level_ok(ops, tl, s, s.path.len() as int));
        assert(hopeless(ops, s.done, s.state, first));
        // But the rest of the order finishes the linearization from there.
        let rest = order.drop_first();
        let next = model_step(s.state, ops[first]).1;
        assert(finishes(ops, s.done.insert(first), next, rest)) by {
            assert forall|x: int| #[trigger] rest.contains(x) <==> (0 <= x < ops.len()
                && !s.done.insert(first).contains(x)) by {
                if rest.contains(x) {
                    let m = choose|m: int| 0 <= m < rest.len() && rest[m] == x;
                    assert(order[m + 1] == x);
                    assert(order.contains(x));
                }
                if 0 <= x < ops.len() && !s.done.insert(first).contains(x) {
                    assert(order.contains(x));
                    let m = choose|m: int| 0 <= m < order.len() && order[m] == x;
                    assert(rest[m - 1] == x);
                }
            }
            assert(rest.no_duplicates()) by {
                assert forall|a: int, b: int|
                    0 <= a < rest.len() && 0 <= b < rest.len() && a != b implies rest[a]
                    != rest[b] by {
                    assert(order[a + 1] != order[b + 1]);
                }
            }
            assert forall|a: int, b: int| 0 <= a <= b < rest.len() implies ops[
                #[trigger] rest[b]].closes() > ops[#[trigger] rest[a]].opens() by {
                assert(ops[order[b + 1]].closes() > ops[order[a + 1]].opens());
            }
        }
        assert(false);
    }
}

/// Every move keeps what holds of the search.
#[verifier::rlimit(40)]
proof fn lemma_advance_sound(ops: Seq<OperationView>, tl: Seq<int>, s: Search)
    requires
        sound(ops, tl, s),
        s.at < tl.len(),
        advance(ops, tl, s) is Next,
    ensures
        sound(ops, tl, advance(ops, tl, s)->Next_0),
{
    let t = advance(ops, tl, s)->Next_0;
    let n = s.path.len() as int;
    let i = tl[s.at] / 2;
    assert(level_ok(ops, tl, s, n));
    if tl[s.at] % 2 == 0 {
        let (ok, next) = model_step(s.state, ops[i]);
        let done = s.done.insert(i);
        if ok && !s.seen.contains((done, next)) {
            lemma_next_live(tl, done, 0);
            assert forall|k: int| 0 <= k <= n implies #[trigger] done_by(tl, t.path, k) == done_by(
                tl,
                s.path,
                k,
            ) by {
                lemma_done_by_prefix(tl, s.path, t.path, k);
            }
            assert(t.path[n] == Choice { call: s.at, prior: s.state });
            assert(done_by(tl, t.path, n) == s.done);
            assert(n + 1 - 1 == n);
            assert(done_by(tl, t.path, n + 1) == done_by(tl, t.path, n).insert(i));
            assert forall|k: int| 0 <= k <= t.path.len() implies #[trigger] level_ok(
                ops,
                tl,
                t,
                k,
            ) by {
                if k <= n {
                    assert(level_ok(ops, tl, s, k));
                    assert(done_by(tl, t.path, k) == done_by(tl, s.path, k));
                    assert(state_by(t, k) == state_by(s, k));
                    assert(at_by(t, k) == at_by(s, k));
                    if k < n {
                        assert(t.path[k] == s.path[k]);
                        assert(state_by(t, k + 1) == state_by(s, k + 1));
                    }
                }
            }
            assert forall|c: (Set<int>, Reg)| #[trigger] t.seen.contains(c) implies on_path(
                tl,
                t,
                c,
            ) || !extendable(ops, c.0, c.1) by {
                if c == (done, next) {
                    assert(c == (done_by(tl, t.path, n + 1), state_by(t, n + 1)));
                } else if on_path(tl, s, c) {
                    let k = choose|k: int|
                        1 <= k <= n && c == (#[trigger] done_by(tl, s.path, k), state_by(s, k));
                    assert(c == (done_by(tl, t.path, k), state_by(t, k)));
                }
            }
        } else {
            // The operation at the mark is now among those tried in vain.
            lemma_next_live(tl, s.done, s.at + 1);
            assert(hopeless(ops, s.done, s.state, i)) by {
                if ok {
                    assert(s.seen.contains((done, next)));
                    if on_path(tl, s, (done, next)) {
                        let k = choose|k: int|
                            1 <= k <= n && (done, next) == (
                                #[trigger] done_by(tl, s.path, k),
                                state_by(s, k),
                            );
                        lemma_done_by_size(ops, tl, s, k);
                        lemma_done_by_size(ops, tl, s, n);
                        assert(done.len() == n + 1);
                    }
                }
            }
            assert forall|k: int| 0 <= k <= n implies #[trigger] level_ok(ops, tl, t, k) by {
                assert(level_ok(ops, tl, s, k));
                assert(state_by(t, k) == state_by(s, k));
                assert(state_by(t, k + 1) == state_by(s, k + 1));
                if k == n {
                    assert forall|p: int| p < t.at && #[trigger] live(tl, s.done, p) implies tl[p]
                        % 2 == 0 && hopeless(ops, s.done, s.state, tl[p] / 2) by {
                        if p > s.at {
                            assert(!live(tl, s.done, p));
                        }
                    }
                }
            }
            assert forall|c: (Set<int>, Reg)| #[trigger] t.seen.contains(c) implies on_path(
                tl,
                t,
                c,
            ) || !extendable(ops, c.0, c.1) by {
                if on_path(tl, s, c) {
                    let k = choose|k: int|
                        1 <= k <= n && c == (#[trigger] done_by(tl, s.path, k), state_by(s, k));
                    assert(c == (done_by(tl, t.path, k), state_by(t, k)));
                }
            }
        }
    } else {
        lemma_dead_end(ops, tl, s);
        let last = s.path.last();
        let j = tl[last.call] / 2;
        let up = done_by(tl, s.path, n - 1);
        assert(level_ok(ops, tl, s, n - 1));
        assert(s.path[n - 1] == last);
        assert(s.done == up.insert(j));
        assert(!up.contains(j));
        assert(s.done.remove(j) =~= up);
        lemma_next_live(tl, up, last.call + 1);
        assert forall|k: int| 0 <= k < n implies #[trigger] done_by(tl, t.path, k) == done_by(
            tl,
            s.path,
            k,
        ) by {
            lemma_done_by_prefix(tl, s.path, t.path, k);
        }
        assert forall|k: int| 0 <= k <= t.path.len() implies #[trigger] level_ok(ops, tl, t, k) by {
            assert(level_ok(ops, tl, s, k));
            assert(done_by(tl, t.path, k) == done_by(tl, s.path, k));
            assert(state_by(t, k) == state_by(s, k));
            if k < n - 1 {
                assert(t.path[k] == s.path[k]);
                assert(state_by(t, k + 1) == state_by(s, k + 1));
            } else {
                assert(hopeless(ops, up, last.prior, j));
                assert forall|p: int| p < t.at && #[trigger] live(tl, up, p) implies tl[p] % 2 == 0
                    && hopeless(ops, up, last.prior, tl[p] / 2) by {
                    if p > last.call {
                        assert(!live(tl, up, p));
                    }
                }
            }
        }
        assert forall|c: (Set<int>, Reg)| #[trigger] t.seen.contains(c) implies on_path(tl, t, c)
            || !extendable(ops, c.0, c.1) by {
            if on_path(tl, s, c) {
                let k = choose|k: int|
                    1 <= k <= n && c == (#[trigger] done_by(tl, s.path, k), state_by(s, k));
                if k < n {
                    assert(c == (done_by(tl, t.path, k), state_by(t, k)));
                }
            }
        }
    }
}

proof fn lemma_path_legal(ops: Seq<OperationView>, tl: Seq<int>, s: Search, k: int)
    requires
        forall|j: int| 0 <= j <= s.path.len() ==> #[trigger] level_ok(ops, tl, s, j),
        0 <= k <= s.path.len(),
    ensures
        legal(ops, state_by(s, k), path_order(tl, s).skip(k)),
    decreases s.path.len() - k,
{
    let rest = path_order(tl, s).skip(k);
    if k < s.path.len() {
        assert(level_ok(ops, tl, s, k));
        lemma_path_legal(ops, tl, s, k + 1);
        assert(rest.drop_first() =~= path_order(tl, s).skip(k + 1));
        assert(rest[0] == tl[s.path[k].call] / 2);
    }
}

/// The order in which the path has linearized operations.
pub open spec fn path_order(tl: Seq<int>, s: Search) -> Seq<int> {
    Seq::new(s.path.len(), |k: int| tl[s.path[k].call] / 2)
}

/// Once the whole timeline has been dealt with, the path is a linearization.
proof fn lemma_found(ops: Seq<OperationView>, tl: Seq<int>, s: Search)
    requires
        sound(ops, tl, s),
        s.at == tl.len(),
    ensures
        linearizable(ops),
{
    let order = path_order(tl, s);
    let n = s.path.len() as int;
    lemma_path_legal(ops, tl, s, 0);
    assert(order.skip(0) =~= order);
    assert forall|k: int, m: int| 0 <= k <= m < n implies !done_by(tl, s.path, k).contains(
        #[trigger] order[m],
    ) && #[trigger] order[k] == tl[s.path[k].call] / 2 by {
        assert(level_ok(ops, tl, s, m));
        if done_by(tl, s.path, k).contains(order[m]) {
            lemma_done_by_member(tl, s.path, k, order[m]);
            lemma_done_by_member(tl, s.path, m, order[m]);
            let j = choose|j: int| 0 <= j < k && #[trigger] (tl[s.path[j].call] / 2) == order[m];
            assert(tl[s.path[j].call] / 2 == order[m]);
        }
    }
    assert(order.no_duplicates()) by {
        assert forall|a: int, b: int| 0 <= a < b < order.len() implies order[a] != order[b] by {
            lemma_done_by_member(tl, s.path, b, order[a]);
            assert(tl[s.path[a].call] / 2 == order[a]);
            assert(!done_by(tl, s.path, b).contains(order[b]));
        }
    }
    assert forall|x: int| #[trigger] order.contains(x) <==> (0 <= x < ops.len() && !Set::<
        int,
    >::empty().contains(x)) by {
        if order.contains(x) {
            let k = choose|k: int| 0 <= k < order.len() && order[k] == x;
            assert(level_ok(ops, tl, s, k));
        }
        if 0 <= x < ops.len() {
            let r = lemma_place(ops, tl, 2 * x + 1);
            assert(level_ok(ops, tl, s, n));
            if !s.done.contains(x) {
                assert(live(tl, s.done, r));
                assert(false);
            }
            lemma_done_by_member(tl, s.path, n, x);
            let j = choose|j: int| 0 <= j < n && #[trigger] (tl[s.path[j].call] / 2) == x;
            assert(order[j] == x);
        }
    }
    assert forall|k: int, m: int| 0 <= k <= m < order.len() implies ops[#[trigger] order[m]].closes()
        > ops[#[trigger] order[k]].opens() by {
        let c = s.path[k].call;
        assert(level_ok(ops, tl, s, k));
        assert(level_ok(ops, tl, s, m));
        if ops[order[m]].closes() <= ops[order[k]].opens() {
            let r = lemma_place(ops, tl, 2 * order[m] + 1);
            assert(tl[r] / 2 == order[m] && tl[r] % 2 == 1);
            assert(r < c);
            assert(!done_by(tl, s.path, k).contains(order[m]));
            assert(live(tl, done_by(tl, s.path, k), r));
            assert(false);
        }
    }
    assert(finishes(ops, Set::empty(), None, order));
}

proof fn lemma_run_sound(ops: Seq<OperationView>, tl: Seq<int>, s: Search, left: nat)
    requires
        sound(ops, tl, s),
    ensures
        run(ops, tl, s, left).0 is Found ==> linearizable(ops),
        run(ops, tl, s, left).0 is Stuck ==> !linearizable(ops) && 0 <= run(
            ops,
            tl,
            s,
            left,
        ).0->Stuck_0 < ops.len(),
        run(ops, tl, s, left).0 is OutOfBudget ==> run(ops, tl, s, left).1 == left + 1,
        run(ops, tl, s, left).1 <= left + 1,
    decreases left,
{
    if s.at >= tl.len() {
        lemma_found(ops, tl, s);
    } else if left > 0 {
        match advance(ops, tl, s) {
            Move::Stuck(i) => {
                lemma_dead_end(ops, tl, s);
                assert(s.done =~= Set::empty());
                assert(0 <= tl[s.at] < 2 * ops.len());
            },
            Move::Next(t) => {
                lemma_advance_sound(ops, tl, s);
                lemma_run_sound(ops, tl, t, (left - 1) as nat);
            },
        }
    }
}

/// The verdict of a search is right: what it finds linearizable is, what it
/// gets stuck on is not, and it gives no verdict only where the budget ran
/// out.
pub proof fn law_search_decides(ops: Seq<OperationView>, budget: nat)
    ensures
        search(ops, budget).0 is Found ==> linearizable(ops),
        search(ops, budget).0 is Stuck ==> !linearizable(ops) && 0 <= search(
            ops,
            budget,
        ).0->Stuck_0 < ops.len(),
        search(ops, budget).0 is OutOfBudget ==> search(ops, budget).1 == budget + 1,
        search(ops, budget).1 <= budget + 1,
{
    lemma_timeline(ops);
    lemma_start_sound(ops, timeline(ops));
    lemma_run_sound(ops, timeline(ops), start(timeline(ops)), budget);
}

} // verus!
