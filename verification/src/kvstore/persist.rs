//! Sequencing of writes that must become durable together.

use crate::count::{bump, count_up};
use crate::sim_io::storage::{op_place, op_taken, PendingOps};
use crate::simcore::disk::OpId;
use crate::simcore::NodeId;
use vstd::prelude::*;

verus! {

/// What to do once a batch of writes has been made durable.
#[derive(Clone, Copy, Debug, PartialEq, Eq, Structural)]
pub enum Persist {
    /// Hard state is durable: this node may now campaign for `term`.
    Campaign { term: u64 },
    /// Hard state is durable: the vote decision may now be revealed.
    VoteReply { to: NodeId, term: u64, granted: bool },
    /// The log is durable through `index`.
    LogDurable { index: u64, reply_to: Option<NodeId>, reply_term: u64 },
    /// Hard state is durable; nothing to say about it.
    Quiet,
}

impl Persist {
    /// The action with its claim on the log cut to `cap`.
    pub open spec fn clamped(self, cap: u64) -> Persist {
        match self {
            Persist::LogDurable { index, reply_to, reply_term } => Persist::LogDurable {
                index: if index < cap {
                    index
                } else {
                    cap
                },
                reply_to,
                reply_term,
            },
            _ => self,
        }
    }

    /// After a truncation, an in-flight batch can no longer vouch for indices
    /// beyond the truncation point: those bytes describe entries that are no
    /// longer in the log.
    pub fn clamp(self, cap: u64) -> (r: Persist)
        ensures
            r == self.clamped(cap),
    {
        match self {
            Persist::LogDurable { index, reply_to, reply_term } => Persist::LogDurable {
                index: if index < cap {
                    index
                } else {
                    cap
                },
                reply_to,
                reply_term,
            },
            _ => self,
        }
    }
}

/// What a batch covers.
#[derive(Clone, Copy, Debug, PartialEq, Eq, Structural)]
pub struct Span {
    /// The first log index the batch wrote; 0 where it wrote none. A claim on
    /// the log may only be extended from there.
    pub first: u64,
    /// The last index known to agree with the leader who sent the entries.
    pub agreed: u64,
    /// The term of the hard state the batch wrote; 0 where it wrote none.
    pub term: u64,
    /// The sequence number of that hard state; 0 where there is none.
    pub seq: u64,
}

impl Span {
    /// A batch that wrote nothing yet.
    pub open spec fn blank() -> Span {
        Span { first: 0, agreed: u64::MAX, term: 0, seq: 0 }
    }

    /// A batch that is to write log entries from `first` on.
    pub open spec fn of_log(first: u64, agreed: u64) -> Span {
        Span { first, agreed, term: 0, seq: 0 }
    }
}

/// What an operation does for its batch.
#[derive(Clone, Copy, Debug, PartialEq, Eq, Structural)]
pub enum OpKind {
    Write,
    Sync,
}

/// A group of writes that must become durable together.
#[derive(Clone, Copy, Debug, PartialEq, Eq, Structural)]
pub struct Batch {
    pub id: u64,
    pub writes_outstanding: u64,
    pub sync_issued: bool,
    pub action: Persist,
    pub span: Span,
}

/// Sequences `write -> confirm -> fsync -> confirm` for a group of writes that
/// must become durable together.
///
/// Issuing the `fsync` only after every write has been confirmed is not
/// pedantry: a write that fails after the sync was issued would otherwise be
/// reported as durable, and the node would answer for data it never wrote.
#[derive(Debug)]
pub struct Persister {
    next_id: u64,
    batches: Vec<Batch>,
    ops: PendingOps<(u64, OpKind)>,
}

/// The persister as a mathematical value.
#[verifier::ext_equal]
pub struct PersisterView {
    pub next_id: u64,
    pub batches: Seq<Batch>,
    pub ops: Seq<(OpId, (u64, OpKind))>,
}

impl View for Persister {
    type V = PersisterView;

    closed spec fn view(&self) -> PersisterView {
        PersisterView { next_id: self.next_id, batches: self.batches@, ops: self.ops@ }
    }
}

/// What a completion means for its batch.
#[derive(Clone, Copy, Debug, PartialEq, Eq, Structural)]
pub enum BatchEvent {
    Nothing,
    NeedSync(u64),
    Done(Persist),
    Failed,
}

/// Where the batch with this id stands, from place `i` on.
pub open spec fn batch_place(bs: Seq<Batch>, id: u64, i: int) -> Option<int>
    decreases bs.len() - i,
{
    if i >= bs.len() {
        None
    } else if bs[i].id == id {
        Some(i)
    } else {
        batch_place(bs, id, i + 1)
    }
}

/// The batches without those that have this id.
pub open spec fn without(bs: Seq<Batch>, id: u64) -> Seq<Batch>
    decreases bs.len(),
{
    if bs.len() == 0 {
        Seq::empty()
    } else if bs.last().id == id {
        without(bs.drop_last(), id)
    } else {
        without(bs.drop_last(), id).push(bs.last())
    }
}

/// The batches with every claim on the log cut to `cap`.
pub open spec fn clamped_all(bs: Seq<Batch>, cap: u64) -> Seq<Batch> {
    bs.map_values(|b: Batch| Batch { action: b.action.clamped(cap), ..b })
}

impl PersisterView {
    /// Nothing in flight.
    pub open spec fn blank() -> PersisterView {
        PersisterView { next_id: 0, batches: Seq::empty(), ops: Seq::empty() }
    }

    /// The id the next batch gets.
    pub open spec fn fresh(self) -> u64 {
        bump(self.next_id)
    }

    /// A batch begun.
    pub open spec fn start(self, action: Persist, span: Span) -> PersisterView {
        PersisterView {
            next_id: self.fresh(),
            batches: self.batches.push(
                Batch {
                    id: self.fresh(),
                    writes_outstanding: 0,
                    sync_issued: false,
                    action,
                    span,
                },
            ),
            ops: self.ops,
        }
    }

    /// One batch changed.
    pub open spec fn with_batch(self, id: u64, b: Batch) -> PersisterView {
        match batch_place(self.batches, id, 0) {
            Some(i) => PersisterView { batches: self.batches.update(i, b), ..self },
            None => self,
        }
    }

    /// The batch with this id.
    pub open spec fn batch(self, id: u64) -> Batch {
        self.batches[batch_place(self.batches, id, 0)->Some_0]
    }

    /// A write issued for a batch.
    pub open spec fn note_write(self, id: u64, op: OpId) -> PersisterView {
        let b = self.batch(id);
        PersisterView {
            ops: self.ops.push((op, (id, OpKind::Write))),
            ..self.with_batch(
                id,
                Batch { writes_outstanding: bump(b.writes_outstanding), ..b },
            )
        }
    }

    /// A sync issued for a batch.
    pub open spec fn note_sync(self, id: u64, op: OpId) -> PersisterView {
        PersisterView {
            ops: self.ops.push((op, (id, OpKind::Sync))),
            ..self.with_batch(id, Batch { sync_issued: true, ..self.batch(id) })
        }
    }

    /// Hard state written by a batch.
    pub open spec fn note_state(self, id: u64, term: u64, seq: u64) -> PersisterView {
        let b = self.batch(id);
        self.with_batch(id, Batch { span: Span { term, seq, ..b.span }, ..b })
    }

    /// The persister once an operation has completed, what that means, and what
    /// the batch it finished covered.
    pub open spec fn complete(self, op: OpId, ok: bool) -> (PersisterView, BatchEvent, Span) {
        let (taken, ops) = op_taken(self.ops, op);
        let rest = PersisterView { ops, ..self };
        match taken {
            None => (self, BatchEvent::Nothing, Span::blank()),
            Some((id, kind)) => if !ok {
                (
                    PersisterView { batches: without(self.batches, id), ..rest },
                    BatchEvent::Failed,
                    Span::blank(),
                )
            } else {
                match batch_place(self.batches, id, 0) {
                    None => (rest, BatchEvent::Nothing, Span::blank()),
                    Some(i) => {
                        let b = self.batches[i];
                        match kind {
                            OpKind::Write => {
                                let left = if b.writes_outstanding == 0 {
                                    0u64
                                } else {
                                    (b.writes_outstanding - 1) as u64
                                };
                                (
                                    PersisterView {
                                        batches: self.batches.update(
                                            i,
                                            Batch { writes_outstanding: left, ..b },
                                        ),
                                        ..rest
                                    },
                                    if left == 0 && !b.sync_issued {
                                        BatchEvent::NeedSync(id)
                                    } else {
                                        BatchEvent::Nothing
                                    },
                                    Span::blank(),
                                )
                            },
                            OpKind::Sync => (
                                PersisterView { batches: self.batches.remove(i), ..rest },
                                BatchEvent::Done(b.action),
                                b.span,
                            ),
                        }
                    },
                }
            },
        }
    }

    /// Every claim on the log cut to `cap`.
    pub open spec fn clamp_all(self, cap: u64) -> PersisterView {
        PersisterView { batches: clamped_all(self.batches, cap), ..self }
    }
}

pub proof fn lemma_batch_place(bs: Seq<Batch>, id: u64, i: int)
    requires
        0 <= i,
    ensures
        match batch_place(bs, id, i) {
            Some(p) => i <= p < bs.len() && bs[p].id == id,
            None => forall|j: int| i <= j < bs.len() ==> (#[trigger] bs[j]).id != id,
        },
    decreases bs.len() - i,
{
    if i < bs.len() && bs[i].id != id {
        lemma_batch_place(bs, id, i + 1);
    }
}

impl Default for Persister {
    fn default() -> (r: Persister)
        ensures
            r@ == PersisterView::blank(),
    {
        Persister { next_id: 0, batches: Vec::new(), ops: PendingOps::new() }
    }
}

impl Persister {
    pub fn start(&mut self, action: Persist) -> (r: u64)
        ensures
            r == old(self)@.fresh(),
            final(self)@ == old(self)@.start(action, Span::blank()),
    {
        self.start_span(action, Span { first: 0, agreed: u64::MAX, term: 0, seq: 0 })
    }

    /// Begin a batch that covers a span.
    pub fn start_span(&mut self, action: Persist, span: Span) -> (r: u64)
        ensures
            r == old(self)@.fresh(),
            final(self)@ == old(self)@.start(action, span),
    {
        self.next_id = count_up(self.next_id);
        self.batches.push(
            Batch {
                id: self.next_id,
                writes_outstanding: 0,
                sync_issued: false,
                action,
                span,
            },
        );
        self.next_id
    }

    fn place(&self, id: u64) -> (r: Option<usize>)
        ensures
            match r {
                Some(i) => batch_place(self@.batches, id, 0) == Some(i as int) && i
                    < self.batches@.len(),
                None => batch_place(self@.batches, id, 0) is None,
            },
    {
        let mut i: usize = 0;
        while i < self.batches.len()
            invariant
                i <= self.batches@.len(),
                batch_place(self.batches@, id, 0) == batch_place(self.batches@, id, i as int),
            decreases self.batches@.len() - i,
        {
            if self.batches[i].id == id {
                return Some(i);
            }
            i += 1;
        }
        None
    }

    pub fn note_write(&mut self, id: u64, op: OpId)
        ensures
            final(self)@ == old(self)@.note_write(id, op),
    {
        if let Some(i) = self.place(id) {
            let mut b = self.batches[i];
            b.writes_outstanding = count_up(b.writes_outstanding);
            self.batches[i] = b;
        }
        self.ops.insert(op, (id, OpKind::Write));
    }

    pub fn note_sync(&mut self, id: u64, op: OpId)
        ensures
            final(self)@ == old(self)@.note_sync(id, op),
    {
        if let Some(i) = self.place(id) {
            let mut b = self.batches[i];
            b.sync_issued = true;
            self.batches[i] = b;
        }
        self.ops.insert(op, (id, OpKind::Sync));
    }

    /// Note which hard state a batch wrote.
    pub fn note_state(&mut self, id: u64, term: u64, seq: u64)
        ensures
            final(self)@ == old(self)@.note_state(id, term, seq),
    {
        if let Some(i) = self.place(id) {
            let mut b = self.batches[i];
            b.span.term = term;
            b.span.seq = seq;
            self.batches[i] = b;
        }
    }

    pub fn on_complete(&mut self, op: OpId, ok: bool) -> (r: BatchEvent)
        ensures
            final(self)@ == old(self)@.complete(op, ok).0,
            r == old(self)@.complete(op, ok).1,
    {
        self.complete(op, ok).0
    }

    /// Take note of a completion: what it means, and what the batch it finished
    /// covered.
    pub fn complete(&mut self, op: OpId, ok: bool) -> (r: (BatchEvent, Span))
        ensures
            (final(self)@, r.0, r.1) == old(self)@.complete(op, ok),
    {
        let blank = Span { first: 0, agreed: u64::MAX, term: 0, seq: 0 };
        let (id, kind) = match self.ops.take(op) {
            Some(x) => x,
            None => return (BatchEvent::Nothing, blank),
        };
        if !ok {
            self.drop_batch(id);
            return (BatchEvent::Failed, blank);
        }
        let i: usize = match self.place(id) {
            Some(i) => i,
            None => return (BatchEvent::Nothing, blank),
        };
        let mut b = self.batches[i];
        match kind {
            OpKind::Write => {
                if b.writes_outstanding > 0 {
                    b.writes_outstanding = b.writes_outstanding - 1;
                }
                self.batches[i] = b;
                if b.writes_outstanding == 0 && !b.sync_issued {
                    (BatchEvent::NeedSync(id), blank)
                } else {
                    (BatchEvent::Nothing, blank)
                }
            },
            OpKind::Sync => {
                self.batches.remove(i);
                (BatchEvent::Done(b.action), b.span)
            },
        }
    }

    fn drop_batch(&mut self, id: u64)
        ensures
            final(self)@ == (PersisterView {
                batches: without(old(self)@.batches, id),
                ..old(self)@
            }),
    {
        let mut kept: Vec<Batch> = Vec::new();
        let mut i: usize = 0;
        while i < self.batches.len()
            invariant
                i <= self.batches@.len(),
                *self == *old(self),
                kept@ == without(self.batches@.take(i as int), id),
            decreases self.batches@.len() - i,
        {
            proof {
                let t = self.batches@.take(i + 1);
                assert(t.drop_last() =~= self.batches@.take(i as int));
                assert(t.last() == self.batches@[i as int]);
            }
            if self.batches[i].id != id {
                kept.push(self.batches[i]);
            }
            i += 1;
        }
        assert(self.batches@.take(i as int) =~= self.batches@);
        self.batches = kept;
    }

    pub fn clamp_all(&mut self, cap: u64)
        ensures
            final(self)@ == old(self)@.clamp_all(cap),
    {
        let mut i: usize = 0;
        while i < self.batches.len()
            invariant
                i <= self.batches@.len(),
                self.batches@.len() == old(self).batches@.len(),
                self.next_id == old(self).next_id,
                self.ops == old(self).ops,
                forall|j: int|
                    0 <= j < self.batches@.len() ==> #[trigger] self.batches@[j] == if j < i {
                        clamped_all(old(self).batches@, cap)[j]
                    } else {
                        old(self).batches@[j]
                    },
            decreases self.batches@.len() - i,
        {
            let mut b = self.batches[i];
            b.action = b.action.clamp(cap);
            self.batches[i] = b;
            i += 1;
        }
        assert(self.batches@ =~= clamped_all(old(self).batches@, cap));
    }

    pub fn in_flight(&self) -> (r: usize)
        ensures
            r == self@.batches.len(),
    {
        self.batches.len()
    }
}

// ---- what the sequencing promises ----------------------------------------

/// Whether every batch counts at least the writes still on their way, has a
/// sync on its way only once there are none, and has an id of its own.
pub open spec fn disciplined(p: PersisterView) -> bool {
    &&& forall|i: int, j: int|
        0 <= i < j < p.batches.len() ==> (#[trigger] p.batches[i]).id != (#[trigger] p.batches[j]).id
    &&& forall|i: int|
        0 <= i < p.batches.len() ==> (#[trigger] p.batches[i]).id <= p.next_id
    &&& forall|k: int|
        0 <= k < p.ops.len() ==> (#[trigger] p.ops[k]).1.0 <= p.next_id
    &&& forall|i: int|
        0 <= i < p.batches.len() ==> (#[trigger] p.batches[i]).writes_outstanding == writes_on(
            p.ops,
            p.batches[i].id,
        )
}

/// How many writes of a batch are still on their way.
pub open spec fn writes_on(ops: Seq<(OpId, (u64, OpKind))>, id: u64) -> nat
    decreases ops.len(),
{
    if ops.len() == 0 {
        0
    } else {
        writes_on(ops.drop_last(), id) + (if ops.last().1 == (id, OpKind::Write) {
            1nat
        } else {
            0
        })
    }
}

proof fn lemma_writes_on_remove(ops: Seq<(OpId, (u64, OpKind))>, k: int, id: u64)
    requires
        0 <= k < ops.len(),
    ensures
        writes_on(ops, id) == writes_on(ops.remove(k), id) + (if ops[k].1 == (id, OpKind::Write) {
            1nat
        } else {
            0
        }),
    decreases ops.len(),
{
    if k == ops.len() - 1 {
        assert(ops.remove(k) =~= ops.drop_last());
    } else {
        let d = ops.drop_last();
        lemma_writes_on_remove(d, k, id);
        assert(ops.remove(k).drop_last() =~= d.remove(k));
        assert(ops.remove(k).last() == ops.last());
    }
}

proof fn lemma_op_taken_place(ops: Seq<(OpId, (u64, OpKind))>, op: OpId, i: int)
    requires
        0 <= i,
    ensures
        op_place(ops, op, i) matches Some(p) ==> i <= p < ops.len()
            && ops[p].0 == op,
    decreases ops.len() - i,
{
    if i < ops.len() && ops[i].0 != op {
        lemma_op_taken_place(ops, op, i + 1);
    }
}

/// A batch asks for its sync exactly when its last write on its way is
/// confirmed, and is reported done only when that sync completes; until then
/// every write was confirmed.
pub proof fn law_sync_follows_every_write(p: PersisterView, op: OpId)
    requires
        disciplined(p),
    ensures
        p.complete(op, true).1 matches BatchEvent::NeedSync(id) ==> writes_on(
            p.complete(op, true).0.ops,
            id,
        ) == 0,
        p.complete(op, true).1 is Done ==> exists|k: int|
            0 <= k < p.ops.len() && (#[trigger] p.ops[k]).0 == op && p.ops[k].1.1 == OpKind::Sync,
        p.complete(op, false).1 is Failed || p.complete(op, false).1 is Nothing,
{
    lemma_op_taken_place(p.ops, op, 0);
    if let Some(k) = op_place(p.ops, op, 0) {
        let (id, kind) = p.ops[k].1;
        lemma_batch_place(p.batches, id, 0);
        lemma_writes_on_remove(p.ops, k, id);
        assert(p.ops[k].0 == op);
        if let Some(i) = batch_place(p.batches, id, 0) {
            assert(p.batches[i].writes_outstanding == writes_on(p.ops, p.batches[i].id));
        }
    }
}

proof fn lemma_writes_on_fresh(ops: Seq<(OpId, (u64, OpKind))>, next: u64, id: u64)
    requires
        forall|k: int| 0 <= k < ops.len() ==> (#[trigger] ops[k]).1.0 <= next,
        id > next,
    ensures
        writes_on(ops, id) == 0,
    decreases ops.len(),
{
    if ops.len() > 0 {
        assert(ops[ops.len() - 1].1.0 <= next);
        assert forall|k: int| 0 <= k < ops.drop_last().len() implies (
        #[trigger] ops.drop_last()[k]).1.0 <= next by {
            assert(ops.drop_last()[k] == ops[k]);
        }
        lemma_writes_on_fresh(ops.drop_last(), next, id);
    }
}

/// Beginning a batch and noting its writes and its sync keep the discipline
/// (as long as counters do not reach their end).
pub proof fn law_discipline_is_kept(p: PersisterView, action: Persist, span: Span, id: u64, op: OpId)
    requires
        disciplined(p),
        p.next_id < u64::MAX,
        id <= p.next_id,
        writes_on(p.ops, id) < u64::MAX,
    ensures
        disciplined(p.start(action, span)),
        disciplined(p.note_write(id, op)),
        disciplined(p.note_sync(id, op)),
{
    let s = p.start(action, span);
    lemma_writes_on_fresh(p.ops, p.next_id, s.next_id);
    assert forall|i: int| 0 <= i < s.batches.len() implies (
    #[trigger] s.batches[i]).writes_outstanding == writes_on(s.ops, s.batches[i].id) by {
        if i < p.batches.len() {
            assert(s.batches[i] == p.batches[i]);
        }
    }
    assert forall|i: int, j: int| 0 <= i < j < s.batches.len() implies (#[trigger] s.batches[i]).id
        != (#[trigger] s.batches[j]).id by {
        assert(p.batches[i].id <= p.next_id);
    }
    lemma_batch_place(p.batches, id, 0);
    let (w, y) = (p.note_write(id, op), p.note_sync(id, op));
    assert(w.ops.drop_last() =~= p.ops);
    assert(y.ops.drop_last() =~= p.ops);
    assert forall|i: int| 0 <= i < w.batches.len() implies (
    #[trigger] w.batches[i]).writes_outstanding == writes_on(w.ops, w.batches[i].id) && w.batches[i].id
        == p.batches[i].id by {
        let b = p.batches[i];
        assert(b.writes_outstanding == writes_on(p.ops, b.id));
        if let Some(q) = batch_place(p.batches, id, 0) {
            if i < q {
                assert(p.batches[i].id != p.batches[q].id);
            } else if i > q {
                assert(p.batches[q].id != p.batches[i].id);
            }
        } else {
            assert(b.id != id);
        }
    }
    assert forall|i: int| 0 <= i < y.batches.len() implies (
    #[trigger] y.batches[i]).writes_outstanding == writes_on(y.ops, y.batches[i].id) && y.batches[i].id
        == p.batches[i].id by {
        let b = p.batches[i];
        assert(b.writes_outstanding == writes_on(p.ops, b.id));
    }
    assert forall|i: int, j: int| 0 <= i < j < w.batches.len() implies (#[trigger] w.batches[i]).id
        != (#[trigger] w.batches[j]).id by {
        assert(p.batches[i].id != p.batches[j].id);
    }
    assert forall|i: int, j: int| 0 <= i < j < y.batches.len() implies (#[trigger] y.batches[i]).id
        != (#[trigger] y.batches[j]).id by {
        assert(p.batches[i].id != p.batches[j].id);
    }
    assert forall|i: int| 0 <= i < w.batches.len() implies (#[trigger] w.batches[i]).id
        <= w.next_id by {
        assert(p.batches[i].id <= p.next_id);
    }
    assert forall|i: int| 0 <= i < y.batches.len() implies (#[trigger] y.batches[i]).id
        <= y.next_id by {
        assert(p.batches[i].id <= p.next_id);
    }
}

} // verus!
