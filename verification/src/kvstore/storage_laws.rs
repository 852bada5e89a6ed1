//! What a node's storage keeps track of: batches on their way, the newest state
//! and snapshot, and where things are in the log.

use crate::bytes::{law_le_u32_round_trip, law_le_u64_round_trip, le_u32, le_u64};
use crate::kvstore::codec::{at, crc_of};
use crate::kvstore::log::{count_at_most, lemma_last_index, EntryView, LogView};
use crate::kvstore::persist::{
    batch_place, without, Batch, BatchEvent, OpKind, Persist, PersisterView, Span,
};
use crate::kvstore::recovery::{
    claimed_first, offset_of_slot, picked_snapshot, recovered_state, slot_in, snapshot_in,
    SLOT_SIZE,
};
use crate::sim_io::storage::{op_place, op_taken};
use crate::simcore::disk::OpId;
use vstd::prelude::*;

verus! {

// ---- batches ---------------------------------------------------------------

proof fn lemma_op_found(ops: Seq<(OpId, (u64, OpKind))>, op: OpId, i: int, k: int)
    requires
        0 <= i <= k < ops.len(),
        ops[k].0 == op,
        forall|j: int| i <= j < k ==> (#[trigger] ops[j]).0 != op,
    ensures
        op_place(ops, op, i) == Some(k),
    decreases k - i,
{
    if i < k {
        lemma_op_found(ops, op, i + 1, k);
    }
}

proof fn lemma_batch_found(bs: Seq<Batch>, id: u64, i: int, k: int)
    requires
        0 <= i <= k < bs.len(),
        bs[k].id == id,
        forall|j: int| i <= j < k ==> (#[trigger] bs[j]).id != id,
    ensures
        batch_place(bs, id, i) == Some(k),
    decreases k - i,
{
    if i < k {
        lemma_batch_found(bs, id, i + 1, k);
    }
}

/// What a completion brings. The operation is that of one batch: the last write
/// of a batch calls for its sync, an earlier one for nothing yet; its sync ends
/// the batch, with what was to be done then and what it covered. A failure of
/// either ends it without. No other batch is touched.
pub proof fn law_completions_move_their_batch(p: PersisterView, k: int, b: int)
    requires
        0 <= k < p.ops.len(),
        0 <= b < p.batches.len(),
        p.ops[k].1.0 == p.batches[b].id,
        forall|j: int| 0 <= j < k ==> (#[trigger] p.ops[j]).0 != p.ops[k].0,
        forall|i: int, j: int|
            0 <= i < j < p.batches.len() ==> (#[trigger] p.batches[i]).id != (
            #[trigger] p.batches[j]).id,
        p.batches[b].writes_outstanding > 0 || p.ops[k].1.1 == OpKind::Sync,
    ensures
        ({
            let op = p.ops[k].0;
            let x = p.batches[b];
            let (done, event, span) = p.complete(op, true);
            let (gone, failure, nothing) = p.complete(op, false);
            &&& failure == BatchEvent::Failed
            &&& done.ops == p.ops.remove(k) && gone.ops == p.ops.remove(k)
            &&& forall|i: int|
                0 <= i < gone.batches.len() ==> (#[trigger] gone.batches[i]).id != x.id
            &&& p.ops[k].1.1 == OpKind::Write ==> {
                &&& done.batches.len() == p.batches.len()
                &&& done.batches[b].writes_outstanding == x.writes_outstanding - 1
                &&& done.batches[b].action == x.action && done.batches[b].span == x.span
                &&& forall|i: int|
                    0 <= i < p.batches.len() && i != b ==> #[trigger] done.batches[i]
                        == p.batches[i]
                &&& x.writes_outstanding == 1 && !x.sync_issued ==> event == BatchEvent::NeedSync(x.id)
                &&& x.writes_outstanding > 1 || x.sync_issued ==> event == BatchEvent::Nothing
            }
            &&& p.ops[k].1.1 == OpKind::Sync ==> {
                &&& event == BatchEvent::Done(x.action)
                &&& span == x.span
                &&& done.batches == p.batches.remove(b)
            }
        }),
{
    let (op, id) = (p.ops[k].0, p.batches[b].id);
    lemma_op_found(p.ops, op, 0, k);
    assert forall|j: int| 0 <= j < b implies (#[trigger] p.batches[j]).id != id by {
        assert(p.batches[j].id != p.batches[b].id);
    }
    lemma_batch_found(p.batches, id, 0, b);
    lemma_without(p.batches, id);
}

proof fn lemma_without(bs: Seq<Batch>, id: u64)
    ensures
        forall|i: int| 0 <= i < without(bs, id).len() ==> (#[trigger] without(bs, id)[i]).id != id,
        forall|i: int|
            0 <= i < bs.len() && (#[trigger] bs[i]).id != id ==> without(bs, id).contains(bs[i]),
    decreases bs.len(),
{
    if bs.len() > 0 {
        let d = bs.drop_last();
        lemma_without(d, id);
        let (a, b) = (without(d, id), without(bs, id));
        assert forall|i: int| 0 <= i < b.len() implies (#[trigger] b[i]).id != id by {
            if i < a.len() {
                assert(b[i] == a[i]);
            }
        }
        assert forall|i: int| 0 <= i < bs.len() && (#[trigger] bs[i]).id != id implies b.contains(
            bs[i],
        ) by {
            if i < d.len() {
                assert(d[i] == bs[i]);
                let k = choose|k: int| 0 <= k < a.len() && a[k] == bs[i];
                assert(b[k] == bs[i]);
            } else {
                assert(b[b.len() - 1] == bs[i]);
            }
        }
    }
}

/// A failed batch is the only one that is given up.
pub proof fn law_other_batches_outlive_a_failure(p: PersisterView, op: OpId, i: int)
    requires
        0 <= i < p.batches.len(),
        op_taken(p.ops, op).0 is Some,
        p.batches[i].id != op_taken(p.ops, op).0->Some_0.0,
    ensures
        p.complete(op, false).0.batches.contains(p.batches[i]),
{
    lemma_without(p.batches, op_taken(p.ops, op).0->Some_0.0);
}

/// A completion that no batch waits for means nothing.
pub proof fn law_stray_completions_mean_nothing(p: PersisterView, op: OpId, ok: bool)
    requires
        forall|k: int| 0 <= k < p.ops.len() ==> (#[trigger] p.ops[k]).0 != op,
    ensures
        p.complete(op, ok).0 == p,
        p.complete(op, ok).1 == BatchEvent::Nothing,
{
    lemma_absent(p.ops, op, 0);
}

proof fn lemma_absent(ops: Seq<(OpId, (u64, OpKind))>, op: OpId, i: int)
    requires
        0 <= i,
        forall|k: int| 0 <= k < ops.len() ==> (#[trigger] ops[k]).0 != op,
    ensures
        op_place(ops, op, i) is None,
    decreases ops.len() - i,
{
    if i < ops.len() {
        lemma_absent(ops, op, i + 1);
    }
}

/// A batch begins with nothing outstanding and a number of its own; each write
/// and the sync that is issued for it is remembered as its own.
pub proof fn law_batches_begin(p: PersisterView, action: Persist, span: Span, op: OpId)
    requires
        p.next_id < u64::MAX,
        forall|i: int| 0 <= i < p.batches.len() ==> (#[trigger] p.batches[i]).id <= p.next_id,
    ensures
        ({
            let s = p.start(action, span);
            let id = p.fresh();
            let (w, y) = (s.note_write(id, op), s.note_sync(id, op));
            let n = p.batches.len() as int;
            &&& id == p.next_id + 1 && s.next_id == id
            &&& s.batches.len() == n + 1 && s.batches.take(n) == p.batches
            &&& s.batches[n] == (Batch {
                id,
                writes_outstanding: 0,
                sync_issued: false,
                action,
                span,
            })
            &&& w.batches[n].writes_outstanding == 1 && !w.batches[n].sync_issued
            &&& w.ops == p.ops.push((op, (id, OpKind::Write)))
            &&& y.batches[n].sync_issued && y.batches[n].writes_outstanding == 0
            &&& y.ops == p.ops.push((op, (id, OpKind::Sync)))
            &&& w.batches[n].action == action && y.batches[n].span == span
        }),
{
    let s = p.start(action, span);
    let n = p.batches.len() as int;
    assert(s.batches.take(n) =~= p.batches);
    assert forall|j: int| 0 <= j < n implies (#[trigger] s.batches[j]).id != p.fresh() by {
        assert(s.batches[j] == p.batches[j]);
    }
    lemma_batch_found(s.batches, p.fresh(), 0, n);
}

/// A cut takes the claim of every batch on its way back to the cut, and leaves
/// what lies below it and every other action alone.
pub proof fn law_claims_are_cut_back(p: PersisterView, cap: u64, i: int)
    requires
        0 <= i < p.batches.len(),
    ensures
        ({
            let (a, b) = (p.batches[i], p.clamp_all(cap).batches[i]);
            &&& p.clamp_all(cap).batches.len() == p.batches.len()
            &&& b.id == a.id && b.span == a.span && b.writes_outstanding == a.writes_outstanding
            &&& match (a.action, b.action) {
                (
                    Persist::LogDurable { index, reply_to, reply_term },
                    Persist::LogDurable { index: now, reply_to: to, reply_term: term },
                ) => to == reply_to && term == reply_term && now <= cap && (index <= cap ==> now
                    == index) && (index > cap ==> now == cap),
                (x, y) => x == y,
            }
            &&& p.clamp_all(cap).ops == p.ops
        }),
{
}

// ---- hard state and snapshots --------------------------------------------------

/// Recovery takes the newest state that is intact: of two intact slots the one
/// with the higher number, of one the one there is, and of none the state of a
/// node that never wrote any.
pub proof fn law_the_newest_state_is_taken(b: Seq<u8>)
    ensures
        ({
            let (x, y) = (slot_in(b, 0), slot_in(b, 1));
            let r = recovered_state(b);
            &&& x is Some && y is Some && x->Some_0.seq > y->Some_0.seq ==> r == x->Some_0
            &&& x is Some && y is Some && x->Some_0.seq < y->Some_0.seq ==> r == y->Some_0
            &&& x is Some && y is None ==> r == x->Some_0
            &&& x is None && y is Some ==> r == y->Some_0
            &&& x is None && y is None ==> r.term == 0 && r.voted_for is None && r.seq == 0
        }),
{
}

/// Two states in a row go into different slots.
pub proof fn law_neighbours_use_different_slots(seq: u64)
    requires
        seq < u64::MAX,
    ensures
        offset_of_slot(seq) != offset_of_slot((seq + 1) as u64),
        offset_of_slot(seq) == 0 || offset_of_slot(seq) == SLOT_SIZE,
        seq < u64::MAX - 1 ==> offset_of_slot((seq + 2) as u64) == offset_of_slot(seq),
{
}

/// Of two snapshots the one that covers more of the log is taken, and of two that
/// cover as much the one written later; of one that is intact, that one; and it
/// is said which file it came from.
pub proof fn law_the_better_snapshot_is_taken(a: Seq<u8>, b: Seq<u8>)
    ensures
        ({
            let (x, y) = (snapshot_in(a), snapshot_in(b));
            match picked_snapshot(a, b) {
                Some((s, from)) => {
                    &&& from == 0 && x == Some(s) || from == 1 && y == Some(s)
                    &&& x is Some && y is Some ==> {
                        let (p, q) = (x->Some_0, y->Some_0);
                        &&& p.index > q.index ==> s == p
                        &&& p.index < q.index ==> s == q
                        &&& p.index == q.index && p.seq > q.seq ==> s == p
                        &&& p.index == q.index && p.seq < q.seq ==> s == q
                    }
                },
                None => x is None && y is None,
            }
        }),
{
}

/// A log file that begins with a record claims to begin at that record's index.
pub proof fn law_files_claim_their_first_index(b: Seq<u8>, e: EntryView)
    requires
        at(b, 0, e.record()),
        e.bytes().len() <= u32::MAX,
        e.index > 0,
    ensures
        claimed_first(b) == e.index,
{
    let r = e.record();
    let body = e.bytes();
    let head = le_u32(body.len() as u32);
    let sum = le_u32(crc_of(body));
    assert(r == head + sum + body);
    assert(b.subrange(0, 4) =~= head) by {
        assert(b.subrange(0, r.len() as int).subrange(0, 4) =~= b.subrange(0, 4));
        assert(r.subrange(0, 4) =~= head);
    }
    assert(b.subrange(16, 24) =~= le_u64(e.index)) by {
        assert(b.subrange(0, r.len() as int).subrange(16, 24) =~= b.subrange(16, 24));
        assert(r.subrange(16, 24) =~= body.subrange(8, 16));
        assert(body.subrange(8, 16) =~= le_u64(e.index));
    }
    law_le_u32_round_trip(body.len() as u32);
    law_le_u64_round_trip(e.index);
}

// ---- the log -----------------------------------------------------------------

/// A log is asked by index: it has each of its entries at that entry's own index,
/// and nothing beyond its ends. Its last entry is where it says it ends.
pub proof fn law_logs_are_asked_by_index(l: LogView, i: int)
    requires
        l.wf(),
        0 <= i < l.entries.len(),
    ensures
        l.get(l.entries[i].index) == Some(l.entries[i]),
        l.term_at(l.entries[i].index) == Some(l.entries[i].term),
        l.get(l.entries[i].index) is Some,
        l.last_index() == l.entries.last().index,
        l.last_term() == l.entries.last().term,
        l.last_index() < u64::MAX ==> l.get((l.last_index() + 1) as u64) is None,
        l.get(l.snapshot_index) is None,
        l.term_at(0) == Some(0u64),
        l.snapshot_index > 0 ==> l.term_at(l.snapshot_index) == Some(l.snapshot_term),
{
    lemma_last_index(l);
    assert(l.entries[i].index == l.snapshot_index + 1 + i);
}

/// One log is as recent as another where its last term is later, or the same and
/// it is at least as long: of any two, at least one is as recent as the other.
pub proof fn law_recency_is_by_term_and_length(a: LogView, b: LogView)
    ensures
        a.is_up_to_date(b.last_index(), b.last_term()) || b.is_up_to_date(
            a.last_index(),
            a.last_term(),
        ),
        a.is_up_to_date(a.last_index(), a.last_term()),
        b.last_term() > a.last_term() ==> a.is_up_to_date(b.last_index(), b.last_term())
            && !b.is_up_to_date(a.last_index(), a.last_term()),
        b.last_term() == a.last_term() && b.last_index() > a.last_index() ==> a.is_up_to_date(
            b.last_index(),
            b.last_term(),
        ) && !b.is_up_to_date(a.last_index(), a.last_term()),
{
}

proof fn lemma_count(es: Seq<EntryView>, term: u64)
    requires
        forall|i: int, j: int|
            0 <= i <= j < es.len() ==> (#[trigger] es[i]).term <= (#[trigger] es[j]).term,
    ensures
        count_at_most(es, term) <= es.len(),
        forall|i: int| 0 <= i < es.len() ==> ((#[trigger] es[i]).term <= term <==> i < count_at_most(
            es,
            term,
        )),
    decreases es.len(),
{
    if es.len() > 0 {
        let d = es.drop_last();
        if es.last().term > term {
            lemma_count(d, term);
            assert forall|i: int| 0 <= i < es.len() implies ((#[trigger] es[i]).term <= term <==> i
                < count_at_most(es, term)) by {
                if i < d.len() {
                    assert(d[i] == es[i]);
                }
            }
        } else {
            assert forall|i: int| 0 <= i < es.len() implies (#[trigger] es[i]).term <= term by {
                assert(es[i].term <= es[es.len() - 1].term);
            }
        }
    }
}

/// The last index of a term or earlier parts a log: every entry up to it is of
/// such a term, and every entry behind it of a later one.
pub proof fn law_terms_part_a_log(l: LogView, term: u64, i: u64)
    requires
        l.wf(),
        l.snapshot_index < i <= l.last_index(),
    ensures
        l.get(i)->Some_0.term <= term <==> i <= l.last_index_with_term_at_most(term),
{
    lemma_last_index(l);
    lemma_count(l.entries, term);
    let k = i - l.first_index();
    assert(l.entries[k].term <= term <==> k < count_at_most(l.entries, term));
    assert(l.snapshot_index + count_at_most(l.entries, term) <= l.last_index());
}

} // verus!
