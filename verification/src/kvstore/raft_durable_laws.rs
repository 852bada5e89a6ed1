//! What a node claims to hold durably while its batches finish in any order.
//!
//! Log writes are pipelined, so a later batch routinely finishes before an
//! earlier one. What it covered is parked then: not claimed, because what lies
//! below may yet fail, and not dropped, because it is claimed as soon as the gap
//! closes.

use crate::kvstore::log::lemma_last_index;
use crate::kvstore::persist::{BatchEvent, Persist, PersisterView, Span};
use crate::kvstore::raft_laws::silent;
use crate::kvstore::raft_model::{absorbed, joining, least, lemma_joining, RaftView, Stepped};
use crate::kvstore::raft_vote_laws::{
    acks_at_most, acks_only, law_late_acks_cover_what_was_compared, lemma_quiet_then,
};
use crate::kvstore::wire::{MessageView, RaftMsgView};
use crate::sim_io::effect::{Effect, IoState};
use crate::simcore::disk::OpId;
use crate::simcore::NodeId;
use vstd::prelude::*;

verus! {

/// A batch that wrote part of the log: the indices it wrote, and whom to tell.
pub struct LogBatch {
    pub first: u64,
    pub last: u64,
    pub reply_to: Option<NodeId>,
    pub reply_term: u64,
    pub span: Span,
}

impl LogBatch {
    /// What is to be done once the batch is durable.
    pub open spec fn action(self) -> Persist {
        Persist::LogDurable {
            index: self.last,
            reply_to: self.reply_to,
            reply_term: self.reply_term,
        }
    }

    /// Whether a completion is the last one the batch waited for.
    pub open spec fn finished_by(self, p: PersisterView, op: OpId) -> bool {
        &&& p.complete(op, true).1 == BatchEvent::Done(self.action())
        &&& p.complete(op, true).2 == self.span
        &&& self.span.first == self.first
    }
}

/// A running node whose entries are all of durable terms, with what it has
/// synced up to `d`, while batches `a` and `b` cover what follows, one behind the
/// other, and everything parked lies beyond them.
pub open spec fn two_in_flight(r: RaftView, d: u64, a: LogBatch, b: LogBatch) -> bool {
    &&& r.wf()
    &&& !r.failed
    &&& r.log.last_term() <= r.durable_term
    &&& r.synced_index == d
    &&& a.first == d + 1
    &&& a.first <= a.last
    &&& b.first == a.last + 1
    &&& b.first <= b.last <= r.log.last_index()
    &&& forall|i: int| 0 <= i < r.parked.len() ==> (#[trigger] r.parked[i]).0 > b.last + 1
}

proof fn lemma_none_join(parked: Seq<(u64, u64)>, synced: u64, i: int)
    requires
        0 <= i,
        forall|k: int| i <= k < parked.len() ==> (#[trigger] parked[k]).0 > synced + 1,
    ensures
        joining(parked, synced, i) is None,
        i == 0 ==> absorbed(synced, parked) == (synced, parked),
    decreases parked.len() - i,
{
    if i < parked.len() {
        lemma_none_join(parked, synced, i + 1);
    }
}

proof fn lemma_first_join(parked: Seq<(u64, u64)>, synced: u64, i: int, at: int)
    requires
        0 <= i <= at < parked.len(),
        forall|k: int| i <= k < at ==> (#[trigger] parked[k]).0 > synced + 1,
        parked[at].0 <= synced + 1,
    ensures
        joining(parked, synced, i) == Some(at),
    decreases at - i,
{
    if i < at {
        lemma_first_join(parked, synced, i + 1, at);
    }
}

/// The last range is absorbed where it is the only one that joins.
proof fn lemma_last_joins(parked: Seq<(u64, u64)>, synced: u64, range: (u64, u64))
    requires
        forall|k: int| 0 <= k < parked.len() ==> (#[trigger] parked[k]).0 > synced + 1,
        range.0 <= synced + 1,
        range.1 > synced,
    ensures
        absorbed(synced, parked.push(range)) == absorbed(range.1, parked),
{
    let all = parked.push(range);
    let n = parked.len() as int;
    assert forall|k: int| 0 <= k < n implies (#[trigger] all[k]).0 > synced + 1 by {
        assert(all[k] == parked[k]);
    }
    lemma_first_join(all, synced, 0, n);
    lemma_joining(all, synced, 0);
    assert(all.remove(n) =~= parked);
}

proof fn lemma_durable_index(r: RaftView)
    requires
        r.log.wf(),
        r.log.last_term() <= r.durable_term,
        r.synced_index <= r.log.last_index(),
    ensures
        r.durable_index() == r.synced_index,
{
    lemma_last_index(r.log);
}

proof fn lemma_wider(a: Seq<Effect>, b: Seq<Effect>, cap: u64, more: u64)
    requires
        acks_only(a, b, cap),
        cap <= more,
    ensures
        acks_only(a, b, more),
{
    assert forall|i: int| a.len() <= i < b.len() && ((#[trigger] b[i]) is Send) implies acks_at_most(
        b[i]->payload,
        more,
    ) by {
        assert(acks_at_most(b[i]->payload, cap));
        let m = choose|m: RaftMsgView|
            {
                &&& #[trigger] MessageView::Raft(m).wire() == b[i]->payload
                &&& match m {
                    RaftMsgView::AppendEntriesResp { success, match_index, .. } => success
                        ==> match_index <= cap,
                    _ => true,
                }
            };
        assert(MessageView::Raft(m).wire() == b[i]->payload);
    }
}

/// What a finished batch does to the node it belongs to, whatever terms are
/// durable.
proof fn lemma_finished_any(r: RaftView, io: IoState, op: OpId, x: LogBatch)
    requires
        r.wf(),
        !r.failed,
        x.finished_by(r.persister, op),
        1 <= x.first <= x.last <= r.log.last_index(),
    ensures
        ({
            let s = r.on_storage(io, op, true);
            let (synced, parked) = absorbed(r.synced_index, r.parked.push((x.first, x.last)));
            &&& s.raft.synced_index == synced
            &&& s.raft.parked == parked
            &&& s.raft.log == r.log
            &&& s.raft.members == r.members
            &&& s.raft.id == r.id
            &&& s.raft.term == r.term
            &&& !s.raft.failed
            &&& s.raft.durable_term >= r.durable_term
            &&& s.raft.persister == r.persister.complete(op, true).0
            &&& acks_only(io.log, s.io.log, s.raft.durable_index())
        }),
{
    reveal(RaftView::settle);
    reveal(RaftView::on_durable);
    reveal(RaftView::maybe_commit);
    let q = RaftView { persister: r.persister.complete(op, true).0, ..r };
    let t = q.settle(io, x.action(), x.span);
    let s = t.raft.on_durable(t.io, x.action(), x.span);
    assert(s == r.on_storage(io, op, true));
    assert(silent(io.log, t.io.log));
    law_late_acks_cover_what_was_compared(
        t.raft,
        t.io,
        x.reply_to,
        x.reply_term,
        x.last,
        x.span,
    );
    let cap = least(t.raft.durable_index(), x.span.agreed);
    lemma_quiet_then(io.log, t.io.log, s.io.log, cap);
    lemma_wider(io.log, s.io.log, cap, t.raft.durable_index());
    assert(s.raft.durable_index() == t.raft.durable_index());
}

/// What a finished batch does to the node it belongs to.
proof fn lemma_finished(r: RaftView, io: IoState, op: OpId, x: LogBatch)
    requires
        r.wf(),
        !r.failed,
        r.log.last_term() <= r.durable_term,
        x.finished_by(r.persister, op),
        1 <= x.first <= x.last <= r.log.last_index(),
        absorbed(r.synced_index, r.parked.push((x.first, x.last))).0 <= r.log.last_index(),
    ensures
        ({
            let s = r.on_storage(io, op, true);
            let (synced, parked) = absorbed(r.synced_index, r.parked.push((x.first, x.last)));
            &&& s.raft.synced_index == synced
            &&& s.raft.parked == parked
            &&& s.raft.log == r.log
            &&& s.raft.members == r.members
            &&& s.raft.id == r.id
            &&& s.raft.term == r.term
            &&& !s.raft.failed
            &&& s.raft.durable_term >= r.durable_term
            &&& s.raft.persister == r.persister.complete(op, true).0
            &&& s.raft.durable_index() == synced
            &&& acks_only(io.log, s.io.log, synced)
        }),
{
    lemma_finished_any(r, io, op, x);
    let s = r.on_storage(io, op, true);
    lemma_last_index(r.log);
    lemma_durable_index(s.raft);
}

/// What a failed operation does to the node it belongs to.
proof fn lemma_failed(r: RaftView, io: IoState, op: OpId, x: LogBatch)
    requires
        !r.failed,
        x.finished_by(r.persister, op),
    ensures
        ({
            let s = r.on_storage(io, op, false);
            &&& s.raft.failed
            &&& s.raft.durable_index() == r.durable_index()
            &&& silent(io.log, s.io.log)
        }),
{
}

/// The later of two batches finishes first: what it wrote is not claimed, and
/// nobody is told of more than was synced before. Once the earlier one finishes,
/// both are claimed. If it fails instead, the claim stays as it was, and the node
/// is down: no completion that still comes in changes it.
pub proof fn law_early_batches_are_parked(
    r: RaftView,
    d: u64,
    a: LogBatch,
    b: LogBatch,
    op_a: OpId,
    op_b: OpId,
    io: IoState,
    io_a: IoState,
    late: (IoState, OpId, bool),
)
    requires
        two_in_flight(r, d, a, b),
        b.finished_by(r.persister, op_b),
        a.finished_by(r.persister.complete(op_b, true).0, op_a),
    ensures
        ({
            let s = r.on_storage(io, op_b, true);
            let t = s.raft.on_storage(io_a, op_a, true);
            let u = s.raft.on_storage(io_a, op_a, false);
            &&& r.durable_index() == d
            &&& s.raft.durable_index() == d
            &&& s.raft.parked.contains((b.first, b.last))
            &&& acks_only(io.log, s.io.log, d)
            &&& t.raft.durable_index() == b.last
            &&& acks_only(io_a.log, t.io.log, b.last)
            &&& u.raft.durable_index() == d
            &&& u.raft.failed
            &&& silent(io_a.log, u.io.log)
            &&& u.raft.on_storage(late.0, late.1, late.2) == (Stepped { raft: u.raft, io: late.0 })
        }),
{
    let (ra, rb) = ((a.first, a.last), (b.first, b.last));
    let parked = r.parked.push(rb);
    lemma_durable_index(r);
    assert forall|k: int| 0 <= k < parked.len() implies (#[trigger] parked[k]).0 > d + 1 by {
        if k < r.parked.len() {
            assert(parked[k] == r.parked[k]);
        }
    }
    lemma_none_join(parked, d, 0);
    lemma_finished(r, io, op_b, b);
    let s = r.on_storage(io, op_b, true);
    assert(parked[r.parked.len() as int] == rb);
    // The gap closes: first the earlier range joins, then the parked one.
    lemma_last_joins(parked, d, ra);
    lemma_last_joins(r.parked, a.last, rb);
    lemma_none_join(r.parked, b.last, 0);
    lemma_finished(s.raft, io_a, op_a, a);
    lemma_failed(s.raft, io_a, op_a, a);
}

/// The same two batches finish in order: each is claimed as it finishes, and in
/// the end as much is claimed as in the other order. If the earlier one fails,
/// the later one is never claimed.
pub proof fn law_batches_in_order_are_claimed(
    r: RaftView,
    d: u64,
    a: LogBatch,
    b: LogBatch,
    op_a: OpId,
    op_b: OpId,
    io: IoState,
    io_b: IoState,
)
    requires
        two_in_flight(r, d, a, b),
        a.finished_by(r.persister, op_a),
        b.finished_by(r.persister.complete(op_a, true).0, op_b),
    ensures
        ({
            let s = r.on_storage(io, op_a, true);
            let t = s.raft.on_storage(io_b, op_b, true);
            let u = r.on_storage(io, op_a, false);
            &&& r.durable_index() == d
            &&& s.raft.durable_index() == a.last
            &&& acks_only(io.log, s.io.log, a.last)
            &&& t.raft.durable_index() == b.last
            &&& acks_only(io_b.log, t.io.log, b.last)
            &&& u.raft.durable_index() == d
            &&& u.raft.failed
            &&& u.raft.on_storage(io_b, op_b, true) == (Stepped { raft: u.raft, io: io_b })
        }),
{
    let (ra, rb) = ((a.first, a.last), (b.first, b.last));
    lemma_durable_index(r);
    lemma_last_joins(r.parked, d, ra);
    lemma_none_join(r.parked, a.last, 0);
    lemma_finished(r, io, op_a, a);
    let s = r.on_storage(io, op_a, true);
    lemma_last_joins(r.parked, a.last, rb);
    lemma_none_join(r.parked, b.last, 0);
    lemma_finished(s.raft, io_b, op_b, b);
    lemma_failed(r, io, op_a, a);
}

/// Whether nothing that joins what is synced reaches beyond it.
pub open spec fn settled_at(synced: u64, ranges: Seq<(u64, u64)>) -> bool {
    forall|k: int|
        0 <= k < ranges.len() && (#[trigger] ranges[k]).0 <= synced + 1 ==> ranges[k].1 <= synced
}

proof fn lemma_joining_none(parked: Seq<(u64, u64)>, synced: u64, i: int)
    requires
        0 <= i,
        joining(parked, synced, i) is None,
    ensures
        forall|k: int| i <= k < parked.len() ==> (#[trigger] parked[k]).0 > synced + 1,
    decreases parked.len() - i,
{
    if i < parked.len() {
        lemma_joining_none(parked, synced, i + 1);
    }
}

/// Absorbing reaches the least point at which the ranges are settled; what still
/// waits lies beyond it, and everything else is covered.
proof fn lemma_absorbed(x: u64, q: Seq<(u64, u64)>)
    ensures
        ({
            let (y, rest) = absorbed(x, q);
            &&& x <= y
            &&& settled_at(y, q)
            &&& forall|k: int|
                0 <= k < q.len() ==> (#[trigger] q[k]).1 <= y || rest.contains(q[k])
            &&& forall|k: int|
                0 <= k < rest.len() ==> (#[trigger] rest[k]).0 > y + 1 && q.contains(rest[k])
            &&& forall|z: u64| x <= z && #[trigger] settled_at(z, q) ==> y <= z
        }),
    decreases q.len(),
{
    lemma_joining(q, x, 0);
    match joining(q, x, 0) {
        None => {
            lemma_joining_none(q, x, 0);
        },
        Some(i) => {
            let more = if q[i].1 > x {
                q[i].1
            } else {
                x
            };
            let fewer = q.remove(i);
            lemma_absorbed(more, fewer);
            let (y, rest) = absorbed(x, q);
            assert forall|k: int| 0 <= k < q.len() implies (#[trigger] q[k]).1 <= y || rest.contains(
                q[k],
            ) by {
                if k < i {
                    assert(fewer[k] == q[k]);
                } else if k > i {
                    assert(fewer[k - 1] == q[k]);
                }
            }
            assert forall|k: int| 0 <= k < rest.len() implies (#[trigger] rest[k]).0 > y + 1
                && q.contains(rest[k]) by {
                assert(fewer.contains(rest[k]));
                let j = choose|j: int| 0 <= j < fewer.len() && fewer[j] == rest[k];
                if j < i {
                    assert(q[j] == rest[k]);
                } else {
                    assert(q[j + 1] == rest[k]);
                }
            }
            assert forall|k: int| 0 <= k < q.len() && (#[trigger] q[k]).0 <= y + 1 implies q[k].1
                <= y by {
                if rest.contains(q[k]) {
                    let j = choose|j: int| 0 <= j < rest.len() && rest[j] == q[k];
                    assert(rest[j].0 > y + 1);
                }
            }
            assert forall|z: u64| x <= z && #[trigger] settled_at(z, q) implies y <= z by {
                assert(q[i].1 <= z);
                assert forall|k: int| 0 <= k < fewer.len() && (#[trigger] fewer[k]).0 <= z
                    + 1 implies fewer[k].1 <= z by {
                    if k < i {
                        assert(fewer[k] == q[k]);
                    } else {
                        assert(fewer[k] == q[k + 1]);
                    }
                }
                assert(settled_at(z, fewer));
            }
        },
    }
}

/// Two ranges are absorbed to the same point in either order.
proof fn lemma_either_order(d: u64, parked: Seq<(u64, u64)>, ra: (u64, u64), rb: (u64, u64))
    ensures
        ({
            let (x, p) = absorbed(d, parked.push(ra));
            let (y, q) = absorbed(d, parked.push(rb));
            absorbed(x, p.push(rb)).0 == absorbed(y, q.push(ra)).0
        }),
{
    lemma_one_order(d, parked, ra, rb);
    lemma_one_order(d, parked, rb, ra);
    let (x, p) = absorbed(d, parked.push(ra));
    let (y, q) = absorbed(d, parked.push(rb));
    let one = absorbed(x, p.push(rb)).0;
    let two = absorbed(y, q.push(ra)).0;
    let (ab, ba) = (parked.push(ra).push(rb), parked.push(rb).push(ra));
    let n = parked.len() as int;
    assert forall|z: u64| #[trigger] settled_at(z, ab) == settled_at(z, ba) by {
        assert(ab[n] == ra && ab[n + 1] == rb && ba[n] == rb && ba[n + 1] == ra);
        assert forall|k: int| 0 <= k < n implies #[trigger] ab[k] == ba[k] by {}
        if settled_at(z, ab) {
            assert forall|k: int| 0 <= k < ba.len() && (#[trigger] ba[k]).0 <= z + 1 implies ba[k].1
                <= z by {
                if k < n {
                    assert(ab[k] == ba[k]);
                }
            }
        }
        if settled_at(z, ba) {
            assert forall|k: int| 0 <= k < ab.len() && (#[trigger] ab[k]).0 <= z + 1 implies ab[k].1
                <= z by {
                if k < n {
                    assert(ab[k] == ba[k]);
                }
            }
        }
    }
    assert(settled_at(one, ba) && settled_at(two, ab));
}

/// Absorbing one range after another reaches the least point at which all are
/// settled.
proof fn lemma_one_order(d: u64, parked: Seq<(u64, u64)>, ra: (u64, u64), rb: (u64, u64))
    ensures
        ({
            let (x, p) = absorbed(d, parked.push(ra));
            let y = absorbed(x, p.push(rb)).0;
            let all = parked.push(ra).push(rb);
            &&& d <= x <= y
            &&& settled_at(y, all)
            &&& forall|z: u64| d <= z && #[trigger] settled_at(z, all) ==> y <= z
        }),
{
    let first = parked.push(ra);
    let (x, p) = absorbed(d, first);
    let second = p.push(rb);
    let y = absorbed(x, second).0;
    let all = first.push(rb);
    let n = first.len() as int;
    lemma_absorbed(d, first);
    lemma_absorbed(x, second);
    assert(second[p.len() as int] == rb);
    assert(all[n] == rb);
    assert forall|k: int| 0 <= k < all.len() && (#[trigger] all[k]).0 <= y + 1 implies all[k].1
        <= y by {
        if k < n {
            assert(all[k] == first[k]);
            if p.contains(first[k]) {
                let j = choose|j: int| 0 <= j < p.len() && p[j] == first[k];
                assert(second[j] == first[k]);
            }
        }
    }
    assert forall|z: u64| d <= z && #[trigger] settled_at(z, all) implies y <= z by {
        assert forall|k: int| 0 <= k < first.len() && (#[trigger] first[k]).0 <= z + 1 implies first[k].1
            <= z by {
            assert(all[k] == first[k]);
        }
        assert(settled_at(z, first));
        assert forall|k: int| 0 <= k < second.len() && (#[trigger] second[k]).0 <= z
            + 1 implies second[k].1 <= z by {
            if k < p.len() {
                assert(second[k] == p[k]);
                assert(first.contains(p[k]));
                let j = choose|j: int| 0 <= j < first.len() && first[j] == p[k];
                assert(all[j] == p[k]);
            } else {
                assert(second[k] == all[n]);
            }
        }
        assert(settled_at(z, second));
    }
}

/// A running node that has synced its log up to `d`, while batches `a` and `b`
/// cover what follows, one behind the other, and nothing parked joins what is
/// synced.
pub open spec fn behind_each_other(r: RaftView, d: u64, a: LogBatch, b: LogBatch) -> bool {
    &&& r.wf()
    &&& !r.failed
    &&& r.synced_index == d
    &&& a.first == d + 1
    &&& a.first <= a.last
    &&& b.first == a.last + 1
    &&& b.first <= b.last <= r.log.last_index()
    &&& forall|i: int| 0 <= i < r.parked.len() ==> (#[trigger] r.parked[i]).0 > d + 1
}

/// Whatever else is parked and whatever terms are durable, the claim waits for
/// the gap and then covers both batches, in either order. While the earlier one
/// is out, no more than `d` is claimed or acknowledged. Once both have finished,
/// everything they wrote is synced, the same point is reached in either order,
/// and the claim is that point as far as the terms are durable. If the earlier
/// one fails, nothing beyond `d` is ever claimed.
pub proof fn law_batches_in_any_order(
    r: RaftView,
    d: u64,
    a: LogBatch,
    b: LogBatch,
    op_a: OpId,
    op_b: OpId,
    io: IoState,
    then: IoState,
)
    requires
        behind_each_other(r, d, a, b),
        b.finished_by(r.persister, op_b),
        a.finished_by(r.persister.complete(op_b, true).0, op_a),
        a.finished_by(r.persister, op_a),
        b.finished_by(r.persister.complete(op_a, true).0, op_b),
    ensures
        ({
            let early = r.on_storage(io, op_b, true);
            let closed_gap = early.raft.on_storage(then, op_a, true);
            let failed = early.raft.on_storage(then, op_a, false);
            let first = r.on_storage(io, op_a, true);
            let second = first.raft.on_storage(then, op_b, true);
            &&& early.raft.synced_index == d
            &&& early.raft.durable_index() <= d
            &&& early.raft.parked.contains((b.first, b.last))
            &&& acks_only(io.log, early.io.log, d)
            &&& first.raft.synced_index >= a.last
            &&& closed_gap.raft.synced_index >= b.last
            &&& closed_gap.raft.synced_index == second.raft.synced_index
            &&& closed_gap.raft.durable_index() == least(
                closed_gap.raft.synced_index,
                r.log.last_index_with_term_at_most(closed_gap.raft.durable_term),
            )
            &&& acks_only(then.log, closed_gap.io.log, closed_gap.raft.durable_index())
            &&& acks_only(then.log, second.io.log, second.raft.durable_index())
            &&& failed.raft.failed
            &&& failed.raft.synced_index == d
            &&& failed.raft.durable_index() <= d
            &&& silent(then.log, failed.io.log)
        }),
{
    let (ra, rb) = ((a.first, a.last), (b.first, b.last));
    let parked = r.parked.push(rb);
    assert forall|k: int| 0 <= k < parked.len() implies (#[trigger] parked[k]).0 > d + 1 by {
        if k < r.parked.len() {
            assert(parked[k] == r.parked[k]);
        }
    }
    assert(parked[r.parked.len() as int] == rb);
    lemma_none_join(parked, d, 0);
    lemma_finished_any(r, io, op_b, b);
    lemma_finished_any(r, io, op_a, a);
    let early = r.on_storage(io, op_b, true);
    let first = r.on_storage(io, op_a, true);
    lemma_wider(io.log, early.io.log, early.raft.durable_index(), d);
    lemma_finished_any(early.raft, then, op_a, a);
    lemma_finished_any(first.raft, then, op_b, b);
    lemma_failed(early.raft, then, op_a, a);
    lemma_either_order(d, r.parked, ra, rb);
    lemma_one_order(d, r.parked, rb, ra);
    lemma_absorbed(d, r.parked.push(ra));
    let all = parked.push(ra);
    let n = r.parked.len() as int;
    assert(all[n + 1] == ra && all[n] == rb);
    assert(r.parked.push(ra)[n] == ra);
}

} // verus!
