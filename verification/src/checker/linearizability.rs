//! Linearizability checking.
//!
//! A history is linearizable if you can pick one instant inside each
//! operation's invoke..return window, order the operations by those instants,
//! and get a sequence that a single-threaded model would produce. Deciding this
//! is NP-complete in general, so this is the standard search -- Wing & Gong's
//! algorithm with the refinements that make it usable in practice:
//!
//! * **Partition by key.** Operations on different keys cannot influence each
//!   other under this model, and a history is linearizable exactly when each
//!   per-key sub-history is (Herlihy & Wing's locality property). Ten keys turn
//!   one intractable search into ten small ones.
//! * **Memoise on (set of linearized ops, model state).** Two different orders
//!   that consume the same operations and reach the same state are
//!   interchangeable; without this the search re-explores permutations forever.
//! * **Incremental lift/unlift.** Linearizing an operation removes its call and
//!   return from a doubly linked list; backtracking puts them back, which is
//!   O(1) rather than rebuilding the history.
//!
//! Operations that never received a definite answer are the subtle part. A
//! client that times out does not know whether its write happened, and neither
//! does the checker: such an operation is given a return at the end of time and
//! a result that matches anything, so the search may place it anywhere after its
//! invocation -- including last, which is equivalent to it never happening.

use crate::checker::engine::{run_search, Ended};
use crate::checker::operation::{operation_views, Operation, OperationView};
use crate::checker::search::{search, SearchEnd};
use crate::kvstore::machine::{Outcome, OutcomeView};
use crate::simcore::Nanos;
use crate::sort::{arranges, law_stable_order, positions, sort_items, stable_order, Key};
use crate::text::{decimal, less_str, own, put_num, quoted, quoted_str, same_str, text_less, texts};
use std::collections::{BTreeMap, BTreeSet};
use vstd::prelude::*;

verus! {

// ---- the history ---------------------------------------------------------

/// The full observed history.
#[derive(Debug)]
pub struct History {
    ops: Vec<Operation>,
    /// operation id -> position, so completing an operation stays cheap rather
    /// than rescanning a history that grows to tens of thousands of entries.
    index: BTreeMap<u64, usize>,
}

/// The last operation with this id.
pub open spec fn last_with_id(ops: Seq<OperationView>, id: u64) -> Option<int>
    decreases ops.len(),
{
    if ops.len() == 0 {
        None
    } else if ops.last().id == id {
        Some(ops.len() - 1)
    } else {
        last_with_id(ops.drop_last(), id)
    }
}

/// How many operations have no answer.
pub open spec fn pending_count(ops: Seq<OperationView>) -> nat
    decreases ops.len(),
{
    if ops.len() == 0 {
        0
    } else {
        pending_count(ops.drop_last()) + (if ops.last().outcome is None {
            1nat
        } else {
            0
        })
    }
}

/// Whether one of the first `n` operations has this id.
pub open spec fn id_used(ops: Seq<OperationView>, n: int, id: u64) -> bool {
    exists|i: int| 0 <= i < n && (#[trigger] ops[i]).id == id
}

/// What is wrong with the recording of operation `i`, if anything.
pub open spec fn recording_fault(ops: Seq<OperationView>, i: int) -> Option<Seq<char>> {
    let o = ops[i];
    if id_used(ops, i, o.id) {
        Some("duplicate operation id "@ + decimal(o.id as nat))
    } else if o.completed is Some && o.completed->Some_0 < o.invoked {
        Some("operation "@ + decimal(o.id as nat) + " completed before it started"@)
    } else if (o.completed is Some) != (o.outcome is Some) {
        Some(
            "operation "@ + decimal(o.id as nat)
                + " has a completion time and outcome that disagree"@,
        )
    } else {
        None
    }
}

/// The first fault from operation `i` on.
pub open spec fn first_fault(ops: Seq<OperationView>, i: int) -> Option<Seq<char>>
    decreases ops.len() - i,
{
    if i >= ops.len() {
        None
    } else if recording_fault(ops, i) is Some {
        recording_fault(ops, i)
    } else {
        first_fault(ops, i + 1)
    }
}

/// The history once operation `id` is answered.
pub open spec fn completed_at(
    ops: Seq<OperationView>,
    id: u64,
    time: Nanos,
    outcome: OutcomeView,
) -> Seq<OperationView> {
    match last_with_id(ops, id) {
        Some(i) => ops.update(
            i,
            OperationView { completed: Some(time), outcome: Some(outcome), ..ops[i] },
        ),
        None => ops,
    }
}

pub proof fn lemma_last_with_id(ops: Seq<OperationView>, id: u64)
    ensures
        match last_with_id(ops, id) {
            Some(i) => 0 <= i < ops.len() && ops[i].id == id && forall|j: int|
                i < j < ops.len() ==> (#[trigger] ops[j]).id != id,
            None => forall|j: int| 0 <= j < ops.len() ==> (#[trigger] ops[j]).id != id,
        },
    decreases ops.len(),
{
    if ops.len() > 0 && ops.last().id != id {
        let d = ops.drop_last();
        lemma_last_with_id(d, id);
        assert forall|j: int|
            (match last_with_id(d, id) {
                Some(i) => i,
                None => -1,
            }) < j < ops.len() implies (#[trigger] ops[j]).id != id by {
            if j < d.len() {
                assert(d[j] == ops[j]);
            }
        }
    }
}

impl View for History {
    type V = Seq<OperationView>;

    closed spec fn view(&self) -> Seq<OperationView> {
        operation_views(self.ops@)
    }
}

impl Default for History {
    fn default() -> (r: History)
        ensures
            r.wf(),
            r@ == Seq::<OperationView>::empty(),
    {
        History::new()
    }
}

impl Clone for History {
    fn clone(&self) -> (r: History)
        ensures
            self.wf() ==> r.wf(),
            self.wf() ==> r@ == self@,
    {
        let mut out = History::new();
        let mut i: usize = 0;
        while i < self.ops.len()
            invariant
                i <= self.ops@.len(),
                out.wf(),
                out@ == self@.take(i as int),
            decreases self.ops@.len() - i,
        {
            out.push(self.ops[i].clone());
            i += 1;
            assert(out@ =~= self@.take(i as int));
        }
        assert(self@.take(i as int) =~= self@);
        out
    }
}

impl History {
    /// The index finds the last operation with each id.
    pub closed spec fn wf(&self) -> bool {
        forall|id: u64|
            (#[trigger] self.index@.contains_key(id) <==> last_with_id(self@, id) is Some) && (
            self.index@.contains_key(id) ==> last_with_id(self@, id) == Some(
                self.index@[id] as int,
            ))
    }

    pub fn new() -> (r: History)
        ensures
            r.wf(),
            r@ == Seq::<OperationView>::empty(),
    {
        let r = History { ops: Vec::new(), index: BTreeMap::new() };
        assert(r@ =~= Seq::<OperationView>::empty());
        r
    }

    pub fn push(&mut self, op: Operation)
        requires
            old(self).wf(),
        ensures
            final(self).wf(),
            final(self)@ == old(self)@.push(op@),
    {
        let n: usize = self.ops.len();
        let id: u64 = op.id;
        self.index.insert(id, n);
        self.ops.push(op);
        proof {
            assert(self@ =~= old(self)@.push(op@));
            assert(self@.drop_last() =~= old(self)@);
            assert forall|k: u64|
                (#[trigger] self.index@.contains_key(k) <==> last_with_id(self@, k) is Some) && (
                self.index@.contains_key(k) ==> last_with_id(self@, k) == Some(
                    self.index@[k] as int,
                )) by {
                assert(old(self).index@.contains_key(k) <==> last_with_id(old(self)@, k) is Some);
            }
        }
    }

    /// Record the definite answer to an operation. Returns false if the id is
    /// unknown, which would mean the recorder lost track of its own request.
    pub fn complete(&mut self, id: u64, time: Nanos, outcome: Outcome) -> (r: bool)
        requires
            old(self).wf(),
        ensures
            final(self).wf(),
            r == (last_with_id(old(self)@, id) is Some),
            final(self)@ == completed_at(old(self)@, id, time, outcome@),
    {
        let i: usize = match self.index.get(&id) {
            Some(i) => *i,
            None => {
                assert(!self.index@.contains_key(id));
                return false;
            },
        };
        proof {
            assert(self.index@.contains_key(id));
            lemma_last_with_id(self@, id);
        }
        let ghost o = outcome@;
        self.ops[i].completed = Some(time);
        self.ops[i].outcome = Some(outcome);
        proof {
            let (a, b) = (old(self)@, self@);
            assert(b =~= completed_at(a, id, time, o));
            assert forall|k: u64| last_with_id(a, k) == last_with_id(b, k) by {
                lemma_same_ids(a, b, k);
            }
            assert forall|k: u64|
                (#[trigger] self.index@.contains_key(k) <==> last_with_id(self@, k) is Some) && (
                self.index@.contains_key(k) ==> last_with_id(self@, k) == Some(
                    self.index@[k] as int,
                )) by {
                assert(last_with_id(a, k) == last_with_id(b, k));
                assert(old(self).index@.contains_key(k) <==> last_with_id(a, k) is Some);
            }
        }
        true
    }

    pub fn len(&self) -> (r: usize)
        ensures
            r == self@.len(),
    {
        self.ops.len()
    }

    pub fn is_empty(&self) -> (r: bool)
        ensures
            r == (self@.len() == 0),
    {
        self.ops.is_empty()
    }

    pub fn operations(&self) -> (r: &[Operation])
        ensures
            operation_views(r@) == self@,
    {
        self.ops.as_slice()
    }

    pub fn completed(&self) -> (r: usize)
        ensures
            r == self@.len() - pending_count(self@),
    {
        self.ops.len() - self.pending()
    }

    pub fn pending(&self) -> (r: usize)
        ensures
            r == pending_count(self@),
            r <= self@.len(),
    {
        let mut count: usize = 0;
        let mut i: usize = 0;
        while i < self.ops.len()
            invariant
                i <= self.ops@.len(),
                count <= i,
                count == pending_count(self@.take(i as int)),
            decreases self.ops@.len() - i,
        {
            if self.ops[i].is_pending() {
                count += 1;
            }
            proof {
                let t = self@.take(i + 1);
                assert(t.drop_last() =~= self@.take(i as int));
                assert(t.last() == self.ops@[i as int]@);
            }
            i += 1;
        }
        assert(self@.take(i as int) =~= self@);
        count
    }

    /// Sanity checks on the recording itself. A history that fails these says
    /// the harness is broken, not the store.
    pub fn well_formed(&self) -> (r: Result<(), String>)
        ensures
            match r {
                Ok(_) => first_fault(self@, 0) is None,
                Err(e) => first_fault(self@, 0) == Some(e@),
            },
    {
        let mut seen: BTreeSet<u64> = BTreeSet::new();
        let mut i: usize = 0;
        while i < self.ops.len()
            invariant
                i <= self.ops@.len(),
                first_fault(self@, 0) == first_fault(self@, i as int),
                forall|id: u64| #[trigger] seen@.contains(id) <==> id_used(self@, i as int, id),
            decreases self.ops@.len() - i,
        {
            let o = &self.ops[i];
            assert(self@[i as int] == o@);
            assert(seen@.contains(o.id) <==> id_used(self@, i as int, o.id));
            if seen.contains(&o.id) {
                let mut s = own("duplicate operation id ");
                put_num(&mut s, o.id);
                return Err(s);
            }
            if let Some(t) = o.completed {
                if t < o.invoked {
                    let mut s = own("operation ");
                    put_num(&mut s, o.id);
                    s.append(" completed before it started");
                    return Err(s);
                }
            }
            if o.completed.is_some() != o.outcome.is_some() {
                let mut s = own("operation ");
                put_num(&mut s, o.id);
                s.append(" has a completion time and outcome that disagree");
                return Err(s);
            }
            let ghost before = seen@;
            seen.insert(o.id);
            proof {
                assert forall|id: u64| #[trigger] seen@.contains(id) <==> id_used(
                    self@,
                    i + 1,
                    id,
                ) by {
                    assert(before.contains(id) <==> id_used(self@, i as int, id));
                    if id == o.id {
                        assert(self@[i as int].id == id);
                    }
                    if id_used(self@, i as int, id) {
                        let k = choose|k: int| 0 <= k < i && (#[trigger] self@[k]).id == id;
                        assert(self@[k].id == id);
                    }
                    if id_used(self@, i + 1, id) {
                        let k = choose|k: int| 0 <= k < i + 1 && (#[trigger] self@[k]).id == id;
                        if k < i {
                            assert(self@[k].id == id);
                        }
                    }
                }
            }
            i += 1;
        }
        Ok(())
    }
}

proof fn lemma_same_ids(a: Seq<OperationView>, b: Seq<OperationView>, k: u64)
    requires
        a.len() == b.len(),
        forall|i: int| 0 <= i < a.len() ==> (#[trigger] a[i]).id == b[i].id,
    ensures
        last_with_id(a, k) == last_with_id(b, k),
    decreases a.len(),
{
    if a.len() > 0 {
        let (c, d) = (a.drop_last(), b.drop_last());
        assert forall|i: int| 0 <= i < c.len() implies (#[trigger] c[i]).id == d[i].id by {
            assert(a[i].id == b[i].id);
        }
        assert(a[a.len() - 1].id == b[b.len() - 1].id);
        lemma_same_ids(c, d, k);
    }
}

/// A history without a recording fault has distinct ids, no operation that
/// ended before it began, and an answer exactly where there is an answer time.
pub proof fn law_well_formed_history(ops: Seq<OperationView>)
    requires
        first_fault(ops, 0) is None,
    ensures
        forall|i: int, j: int| 0 <= i < j < ops.len() ==> (#[trigger] ops[i]).id != (
        #[trigger] ops[j]).id,
        forall|i: int|
            0 <= i < ops.len() ==> {
                let o = #[trigger] ops[i];
                &&& (o.completed is Some) == (o.outcome is Some)
                &&& o.completed is Some ==> o.completed->Some_0 >= o.invoked
            },
{
    lemma_no_fault(ops, 0);
    assert forall|i: int, j: int| 0 <= i < j < ops.len() implies (#[trigger] ops[i]).id != (
    #[trigger] ops[j]).id by {
        assert(recording_fault(ops, j) is None);
        if ops[i].id == ops[j].id {
            assert(id_used(ops, j, ops[j].id));
        }
    }
    assert forall|i: int| 0 <= i < ops.len() implies {
        let o = #[trigger] ops[i];
        &&& (o.completed is Some) == (o.outcome is Some)
        &&& o.completed is Some ==> o.completed->Some_0 >= o.invoked
    } by {
        assert(recording_fault(ops, i) is None);
    }
}

proof fn lemma_no_fault(ops: Seq<OperationView>, i: int)
    requires
        0 <= i,
        first_fault(ops, i) is None,
    ensures
        forall|j: int| i <= j < ops.len() ==> #[trigger] recording_fault(ops, j) is None,
    decreases ops.len() - i,
{
    if i < ops.len() {
        lemma_no_fault(ops, i + 1);
    }
}

// ---- verdicts ------------------------------------------------------------

/// What checking a history came to.
#[derive(Debug, PartialEq, Eq)]
pub enum Verdict {
    Linearizable,
    Violation { key: String, detail: String },
    /// The search ran out of budget. Not a pass and not a failure.
    Unknown { key: String, reason: String },
}

/// A verdict, its strings as sequences of characters.
pub enum VerdictView {
    Linearizable,
    Violation { key: Seq<char>, detail: Seq<char> },
    Unknown { key: Seq<char>, reason: Seq<char> },
}

impl View for Verdict {
    type V = VerdictView;

    open spec fn view(&self) -> VerdictView {
        match self {
            Verdict::Linearizable => VerdictView::Linearizable,
            Verdict::Violation { key, detail } => VerdictView::Violation {
                key: key@,
                detail: detail@,
            },
            Verdict::Unknown { key, reason } => VerdictView::Unknown { key: key@, reason: reason@ },
        }
    }
}

impl Clone for Verdict {
    fn clone(&self) -> (r: Verdict)
        ensures
            r@ == self@,
    {
        match self {
            Verdict::Linearizable => Verdict::Linearizable,
            Verdict::Violation { key, detail } => Verdict::Violation {
                key: key.clone(),
                detail: detail.clone(),
            },
            Verdict::Unknown { key, reason } => Verdict::Unknown {
                key: key.clone(),
                reason: reason.clone(),
            },
        }
    }
}

impl Verdict {
    pub fn is_violation(&self) -> (r: bool)
        ensures
            r == (self@ is Violation),
    {
        match self {
            Verdict::Violation { .. } => true,
            _ => false,
        }
    }
}

/// The keys of operations by the time they were invoked.
pub open spec fn invocation_keys(ops: Seq<OperationView>) -> Seq<Key> {
    Seq::new(ops.len(), |i: int| Key { first: ops[i].invoked, second: ops[i].id, third: 0 })
}

/// One line for each operation of `order`, from place `i` on.
pub open spec fn lines(ops: Seq<OperationView>, order: Seq<int>) -> Seq<char>
    decreases order.len(),
{
    if order.len() == 0 {
        ""@
    } else {
        lines(ops, order.drop_last()) + "  "@ + ops[order.last()].line() + "\n"@
    }
}

/// What is said of a key whose operations no order explains.
pub open spec fn description(key: Seq<char>, ops: Seq<OperationView>, stuck: int) -> Seq<char> {
    "no ordering of the "@ + decimal(ops.len()) + " operations on key "@ + quoted(key)
        + " satisfies the model\n"@ + "the search got stuck at: "@ + ops[stuck].line() + "\n"@
        + "history for this key, in invocation order:\n"@ + lines(
        ops,
        stable_order(invocation_keys(ops), ops.len()),
    )
}

fn describe(key: &str, ops: &Vec<Operation>, stuck: usize) -> (r: String)
    requires
        stuck < ops@.len(),
    ensures
        r@ == description(key@, operation_views(ops@), stuck as int),
{
    let ghost v = operation_views(ops@);
    let mut s = own("no ordering of the ");
    put_num(&mut s, ops.len() as u64);
    s.append(" operations on key ");
    s.append(quoted_str(key).as_str());
    s.append(" satisfies the model\n");
    s.append("the search got stuck at: ");
    s.append(ops[stuck].render().as_str());
    s.append("\n");
    s.append("history for this key, in invocation order:\n");
    let ghost head = s@;
    let mut keys: Vec<Key> = Vec::new();
    let mut i: usize = 0;
    while i < ops.len()
        invariant
            i <= ops@.len(),
            v == operation_views(ops@),
            keys@.len() == i,
            forall|j: int| 0 <= j < i ==> #[trigger] keys@[j] == invocation_keys(v)[j],
        decreases ops@.len() - i,
    {
        assert(v[i as int] == ops@[i as int]@);
        keys.push(Key { first: ops[i].invoked, second: ops[i].id, third: 0 });
        i += 1;
    }
    assert(keys@ =~= invocation_keys(v));
    let order = sort_items(&keys);
    let ghost places = positions(order@);
    proof {
        law_stable_order(keys@, keys@.len());
    }
    let mut body = own("");
    let mut k: usize = 0;
    while k < order.len()
        invariant
            k <= order@.len(),
            v == operation_views(ops@),
            places == positions(order@),
            order@.len() == ops@.len(),
            arranges(places, ops@.len()),
            body@ == lines(v, places.take(k as int)),
        decreases order@.len() - k,
    {
        assert(places[k as int] == order@[k as int]);
        let o = &ops[order[k]];
        body.append("  ");
        body.append(o.render().as_str());
        body.append("\n");
        proof {
            let t = places.take(k + 1);
            assert(t.drop_last() =~= places.take(k as int));
            assert(v[t.last()] == o@);
        }
        k += 1;
    }
    assert(places.take(k as int) =~= places);
    s.append(body.as_str());
    s
}

/// The verdict on the operations of one key, and how many moves it took.
pub open spec fn key_verdict(key: Seq<char>, ops: Seq<OperationView>, budget: u64) -> (
    VerdictView,
    nat,
) {
    let (end, moves) = search(ops, budget as nat);
    (
        match end {
            SearchEnd::Found => VerdictView::Linearizable,
            SearchEnd::Stuck(i) => VerdictView::Violation { key, detail: description(key, ops, i) },
            SearchEnd::OutOfBudget => VerdictView::Unknown {
                key,
                reason: "search budget of "@ + decimal(budget as nat) + " steps exhausted over "@
                    + decimal(ops.len()) + " operations"@,
            },
        },
        moves,
    )
}

// ---- partitioning --------------------------------------------------------

/// `key` added to a list of keys in order, unless it is already there.
pub open spec fn insert_key(keys: Seq<Seq<char>>, key: Seq<char>) -> Seq<Seq<char>>
    decreases keys.len(),
{
    if keys.len() == 0 || text_less(keys.last(), key) {
        keys.push(key)
    } else if keys.last() == key {
        keys
    } else {
        insert_key(keys.drop_last(), key).push(keys.last())
    }
}

/// The keys that operations are about, in order, each once.
pub open spec fn keys_of(ops: Seq<OperationView>) -> Seq<Seq<char>>
    decreases ops.len(),
{
    if ops.len() == 0 {
        Seq::empty()
    } else {
        match ops.last().op.key() {
            Some(k) => insert_key(keys_of(ops.drop_last()), k),
            None => keys_of(ops.drop_last()),
        }
    }
}

/// The operations about one key, in their order.
pub open spec fn ops_on(ops: Seq<OperationView>, key: Seq<char>) -> Seq<OperationView>
    decreases ops.len(),
{
    if ops.len() == 0 {
        Seq::empty()
    } else if ops.last().op.key() == Some(key) {
        ops_on(ops.drop_last(), key).push(ops.last())
    } else {
        ops_on(ops.drop_last(), key)
    }
}

/// The most operations that any of the first `n` keys has.
pub open spec fn widest(ops: Seq<OperationView>, keys: Seq<Seq<char>>) -> nat
    decreases keys.len(),
{
    if keys.len() == 0 {
        0
    } else {
        let rest = widest(ops, keys.drop_last());
        let here = ops_on(ops, keys.last()).len();
        if here > rest {
            here
        } else {
            rest
        }
    }
}

/// A counter raised by `n`, as far as it goes.
pub open spec fn raised(count: u64, n: nat) -> u64 {
    if count + n > u64::MAX {
        u64::MAX
    } else {
        (count + n) as u64
    }
}

/// Check the keys from place `i` on: the first verdict other than
/// "linearizable", and the count of moves so far.
pub open spec fn check_keys(
    ops: Seq<OperationView>,
    keys: Seq<Seq<char>>,
    i: int,
    budget: u64,
    steps: u64,
) -> (VerdictView, u64)
    decreases keys.len() - i,
{
    if i >= keys.len() {
        (VerdictView::Linearizable, steps)
    } else {
        let (verdict, moves) = key_verdict(keys[i], ops_on(ops, keys[i]), budget);
        if verdict is Linearizable {
            check_keys(ops, keys, i + 1, budget, raised(steps, moves))
        } else {
            (verdict, raised(steps, moves))
        }
    }
}

/// How much work the search may do per key before giving up.
pub const DEFAULT_BUDGET: u64 = 5_000_000;

/// What a check looked at.
#[derive(Clone, Copy, Debug, PartialEq, Eq)]
pub struct CheckStats {
    pub partitions: usize,
    pub operations: usize,
    pub steps: u64,
    pub max_partition: usize,
}

impl Default for CheckStats {
    fn default() -> (r: CheckStats)
        ensures
            r == (CheckStats { partitions: 0, operations: 0, steps: 0, max_partition: 0 }),
    {
        CheckStats { partitions: 0, operations: 0, steps: 0, max_partition: 0 }
    }
}

/// Checks histories.
pub struct Checker {
    pub budget: u64,
    pub stats: CheckStats,
}

impl Default for Checker {
    fn default() -> (r: Checker)
        ensures
            r.budget == DEFAULT_BUDGET,
            r.stats == (CheckStats { partitions: 0, operations: 0, steps: 0, max_partition: 0 }),
    {
        Checker {
            budget: DEFAULT_BUDGET,
            stats: CheckStats { partitions: 0, operations: 0, steps: 0, max_partition: 0 },
        }
    }
}

fn add_key(keys: &mut Vec<String>, key: &str)
    ensures
        texts(final(keys)@) == insert_key(texts(old(keys)@), key@),
{
    let ghost before = texts(keys@);
    let mut p: usize = keys.len();
    assert(before.take(p as int) =~= before);
    assert(insert_key(before, key@) + Seq::<Seq<char>>::empty() =~= insert_key(before, key@));
    assert(before.skip(p as int) =~= Seq::empty());
    while p > 0 && !less_str(keys[p - 1].as_str(), key)
        invariant
            p <= keys@.len(),
            before == texts(keys@),
            keys@ == old(keys)@,
            insert_key(before, key@) == insert_key(before.take(p as int), key@) + before.skip(
                p as int,
            ),
        decreases p,
    {
        let ghost t = before.take(p as int);
        assert(t.last() == keys@[p - 1]@);
        if same_str(keys[p - 1].as_str(), key) {
            assert(before.take(p as int) + before.skip(p as int) =~= before);
            return;
        }
        proof {
            assert(t.drop_last() =~= before.take(p - 1));
            let u = insert_key(before.take(p - 1), key@);
            assert(u.push(t.last()) + before.skip(p as int) =~= u + before.skip(p - 1));
        }
        p -= 1;
    }
    keys.insert(p, own(key));
    proof {
        let t = before.take(p as int);
        if p > 0 {
            assert(t.last() == before[p - 1]);
        }
        assert(texts(keys@) =~= t.push(key@) + before.skip(p as int));
    }
}

fn collect_keys(ops: &[Operation]) -> (r: Vec<String>)
    ensures
        texts(r@) == keys_of(operation_views(ops@)),
{
    let ghost v = operation_views(ops@);
    let mut keys: Vec<String> = Vec::new();
    let mut i: usize = 0;
    assert(texts(keys@) =~= keys_of(v.take(0)));
    while i < ops.len()
        invariant
            i <= ops@.len(),
            v == operation_views(ops@),
            texts(keys@) == keys_of(v.take(i as int)),
        decreases ops@.len() - i,
    {
        proof {
            let t = v.take(i + 1);
            assert(t.drop_last() =~= v.take(i as int));
            assert(t.last() == ops@[i as int]@);
        }
        if let Some(k) = ops[i].key() {
            add_key(&mut keys, k);
        }
        i += 1;
    }
    assert(v.take(i as int) =~= v);
    keys
}

fn collect_ops(ops: &[Operation], key: &str) -> (r: Vec<Operation>)
    ensures
        operation_views(r@) == ops_on(operation_views(ops@), key@),
        r@.len() <= ops@.len(),
{
    let ghost v = operation_views(ops@);
    let mut out: Vec<Operation> = Vec::new();
    let mut i: usize = 0;
    assert(operation_views(out@) =~= ops_on(v.take(0), key@));
    while i < ops.len()
        invariant
            i <= ops@.len(),
            v == operation_views(ops@),
            out@.len() <= i,
            operation_views(out@) == ops_on(v.take(i as int), key@),
        decreases ops@.len() - i,
    {
        proof {
            let t = v.take(i + 1);
            assert(t.drop_last() =~= v.take(i as int));
            assert(t.last() == ops@[i as int]@);
        }
        if let Some(k) = ops[i].key() {
            if same_str(k, key) {
                let ghost before = operation_views(out@);
                let o = ops[i].clone();
                let ghost ov = o@;
                out.push(o);
                assert(operation_views(out@) =~= before.push(ov));
            }
        }
        i += 1;
    }
    assert(v.take(i as int) =~= v);
    out
}

impl Checker {
    pub fn new() -> (r: Checker)
        ensures
            r.budget == DEFAULT_BUDGET,
            r.stats == (CheckStats { partitions: 0, operations: 0, steps: 0, max_partition: 0 }),
    {
        Checker::default()
    }

    /// Check a whole history, one key at a time.
    pub fn check(&mut self, history: &History) -> (r: Verdict)
        ensures
            ({
                let keys = keys_of(history@);
                let (verdict, steps) = check_keys(
                    history@,
                    keys,
                    0,
                    old(self).budget,
                    old(self).stats.steps,
                );
                &&& r@ == verdict
                &&& final(self).budget == old(self).budget
                &&& final(self).stats == (CheckStats {
                    partitions: keys.len() as usize,
                    operations: history@.len() as usize,
                    steps,
                    max_partition: widest(history@, keys) as usize,
                })
            }),
    {
        let ops = history.operations();
        let keys = collect_keys(ops);
        let ghost views = texts(keys@);
        let mut most: usize = 0;
        let mut i: usize = 0;
        while i < keys.len()
            invariant
                i <= keys@.len(),
                views == texts(keys@),
                operation_views(ops@) == history@,
                most == widest(history@, views.take(i as int)),
            decreases keys@.len() - i,
        {
            proof {
                let t = views.take(i + 1);
                assert(t.drop_last() =~= views.take(i as int));
                assert(t.last() == keys@[i as int]@);
            }
            let part = collect_ops(ops, keys[i].as_str());
            assert(operation_views(part@).len() == part@.len());
            if part.len() > most {
                most = part.len();
            }
            i += 1;
        }
        assert(views.take(i as int) =~= views);
        self.stats.partitions = keys.len();
        self.stats.operations = history.len();
        self.stats.max_partition = most;
        let ghost expect = check_keys(
            history@,
            views,
            0,
            old(self).budget,
            old(self).stats.steps,
        );
        let mut k: usize = 0;
        while k < keys.len()
            invariant
                k <= keys@.len(),
                views == texts(keys@),
                operation_views(ops@) == history@,
                self.budget == old(self).budget,
                self.stats.partitions == keys@.len(),
                self.stats.operations == history@.len(),
                self.stats.max_partition == most,
                views == keys_of(history@),
                most == widest(history@, views),
                expect == check_keys(history@, views, 0, old(self).budget, old(self).stats.steps),
                expect == check_keys(history@, views, k as int, self.budget, self.stats.steps),
            decreases keys@.len() - k,
        {
            let key = keys[k].as_str();
            assert(views[k as int] == key@);
            let part = collect_ops(ops, key);
            match self.check_partition(key, &part) {
                Verdict::Linearizable => {},
                other => return other,
            }
            k += 1;
        }
        Verdict::Linearizable
    }

    fn check_partition(&mut self, key: &str, ops: &Vec<Operation>) -> (r: Verdict)
        ensures
            r@ == key_verdict(key@, operation_views(ops@), old(self).budget).0,
            *final(self) == (Checker {
                stats: CheckStats {
                    steps: raised(
                        old(self).stats.steps,
                        key_verdict(key@, operation_views(ops@), old(self).budget).1,
                    ),
                    ..old(self).stats
                },
                ..*old(self)
            }),
    {
        let (end, moves) = run_search(ops, self.budget);
        self.stats.steps = self.stats.steps.saturating_add(moves);
        match end {
            Ended::Found => Verdict::Linearizable,
            Ended::Stuck(i) => Verdict::Violation {
                key: own(key),
                detail: describe(key, ops, i),
            },
            Ended::OutOfBudget => {
                let mut s = own("search budget of ");
                put_num(&mut s, self.budget);
                s.append(" steps exhausted over ");
                put_num(&mut s, ops.len() as u64);
                s.append(" operations");
                Verdict::Unknown { key: own(key), reason: s }
            },
        }
    }
}

} // verus!
