//! What the store does for its clients: commands run once and in order, whoever
//! waits is answered, and nobody is left without an answer.

use crate::count::bump;
use crate::kvstore::bug::InjectedBug;
use crate::kvstore::log::{CommandView, EntryView, OpView};
use crate::kvstore::machine::{lookup, run_op, ClientMsgView, MachineView, OutcomeView};
use crate::kvstore::raft_model::{RaftConfig, RaftView, Role};
use crate::kvstore::server::{
    answered, law_nobody_waits_on_a_follower, waiting_place, ServerStats, ServerView, Waiting,
};
use crate::kvstore::wire::{decoded, MessageView};
use crate::ordered::{law_rows_behave, row_of, row_put, rows_sorted};
use crate::sim_io::clock::TimerTag;
use crate::sim_io::effect::{Effect, IoState};
use crate::simcore::disk::OpId;
use crate::simcore::NodeId;
use vstd::prelude::*;

verus! {

// ---- the machine -----------------------------------------------------------

/// What a key holds is what the map holds under it.
pub proof fn law_lookups_read_the_map(state: Map<Seq<char>, Seq<char>>, key: Seq<char>, v: Seq<char>)
    ensures
        lookup(state.insert(key, v), key) == Some(v),
        lookup(state.remove(key), key) is None,
        state.contains_key(key) ==> lookup(state, key) == Some(state[key]),
        !state.contains_key(key) ==> lookup(state, key) is None,
{
}

/// Each command of a client runs once, and none after a later one: a command
/// whose number is above all that the client's session remembers is run and
/// remembered; one at or below it changes nothing and is answered with what is
/// remembered. No other client's session is touched.
pub proof fn law_commands_run_once(m: MachineView, cmd: CommandView, other: u32)
    requires
        m.bug != InjectedBug::NoDedup,
        !(cmd.op is Noop),
    ensures
        ({
            let (n, out) = m.apply(cmd);
            let news = !m.sessions.contains_key(cmd.client) || m.sessions[cmd.client].seq < cmd.seq;
            &&& news ==> n.state == run_op(m.state, cmd.op).0 && out == run_op(m.state, cmd.op).1
                && n.sessions.contains_key(cmd.client) && n.sessions[cmd.client].seq == cmd.seq
                && n.sessions[cmd.client].outcome == out
            &&& !news ==> n == m && out == m.sessions[cmd.client].outcome
            &&& other != cmd.client ==> n.sessions.contains_key(other) == m.sessions.contains_key(other)
                && (m.sessions.contains_key(other) ==> n.sessions[other] == m.sessions[other])
            &&& n.bug == m.bug
        }),
{
}

/// A leader's empty command does nothing at all.
pub proof fn law_empty_commands_do_nothing(m: MachineView, client: u32, seq: u64)
    ensures
        m.apply(CommandView { client, seq, op: OpView::Noop }) == (m, OutcomeView::Written),
{
}

/// A remembered answer is given for the very request it was given to, and for
/// no other.
pub proof fn law_memory_is_exact(m: MachineView, client: u32, seq: u64)
    requires
        m.bug != InjectedBug::NoDedup,
    ensures
        m.cached(client, seq) is Some <==> m.sessions.contains_key(client) && m.sessions[client].seq
            == seq,
        m.cached(client, seq) is Some ==> m.cached(client, seq) == Some(m.sessions[client].outcome),
{
}

/// An answer is definite exactly where the store has decided: a read, a write or
/// a swap was done. To be sent elsewhere, or dropped, is no answer.
pub proof fn law_definite_answers(v: Option<Seq<char>>, b: bool, n: Option<NodeId>)
    ensures
        OutcomeView::Value(v).is_definite(),
        OutcomeView::Written.is_definite(),
        OutcomeView::Cas(b).is_definite(),
        !OutcomeView::NotLeader(n).is_definite(),
        !OutcomeView::Dropped.is_definite(),
{
}

// ---- the server ------------------------------------------------------------

/// A reply to a client.
pub open spec fn reply_to(to: NodeId, req_id: u64, outcome: OutcomeView) -> Effect {
    Effect::Send {
        to,
        payload: MessageView::Client(ClientMsgView::Reply { req_id, outcome }).wire(),
    }
}

/// Whoever waits for an index is answered when it is applied: with what the
/// command came to where it is theirs, and otherwise with the word that it was
/// dropped. Nobody else is answered, and the machine has applied the command
/// either way.
pub proof fn law_waiting_clients_are_answered(s: ServerView, io: IoState, e: EntryView)
    requires
        rows_sorted(s.waiting),
        s.stats.applied < u64::MAX,
        s.stats.dropped < u64::MAX,
    ensures
        ({
            let t = s.apply_entry(io, e);
            let (sm, out) = s.sm.apply(e.cmd);
            &&& t.server.sm == sm
            &&& t.server.raft == s.raft
            &&& t.server.stats.applied == s.stats.applied + 1
            &&& rows_sorted(t.server.waiting)
            &&& match row_of(s.waiting, e.index) {
                Some(w) => {
                    let mine = w.client == e.cmd.client && w.seq == e.cmd.seq;
                    &&& t.io.log == io.log.push(
                        reply_to(
                            w.to,
                            w.req_id,
                            if mine {
                                out
                            } else {
                                OutcomeView::Dropped
                            },
                        ),
                    )
                    &&& row_of(t.server.waiting, e.index) is None
                    &&& t.server.stats.dropped - s.stats.dropped == if mine {
                        0int
                    } else {
                        1
                    }
                },
                None => t.io == io && t.server.waiting == s.waiting && t.server.stats.dropped
                    == s.stats.dropped,
            }
            &&& forall|i: u64|
                i != e.index ==> #[trigger] row_of(t.server.waiting, i) == row_of(s.waiting, i)
        }),
{
    let w = Waiting { to: NodeId(0), req_id: 0, client: 0, seq: 0 };
    assert forall|i: u64| i != e.index implies #[trigger] row_of(
        s.apply_entry(io, e).server.waiting,
        i,
    ) == row_of(s.waiting, i) by {
        law_rows_behave(s.waiting, e.index, w, i);
    }
    law_rows_behave(s.waiting, e.index, w, 0);
}

/// Entries are applied one after another, in the order they are handed out.
pub proof fn law_entries_are_applied_in_order(s: ServerView, io: IoState, es: Seq<EntryView>, e: EntryView)
    ensures
        s.apply_all(io, es.push(e)) == ({
            let t = s.apply_all(io, es);
            t.server.apply_entry(t.io, e)
        }),
        s.apply_all(io, Seq::empty()).server == s,
        s.apply_all(io, Seq::empty()).io == io,
{
    assert(es.push(e).drop_last() =~= es);
}

/// A request that a leader has not seen is proposed: the command goes into its
/// log at the next index, and the client waits for that index.
pub proof fn law_requests_are_proposed(
    s: ServerView,
    io: IoState,
    from: NodeId,
    req_id: u64,
    client: u32,
    seq: u64,
    op: OpView,
)
    requires
        s.raft.accepts_commands(),
        s.sm.cached(client, seq) is None,
        forall|i: int|
            0 <= i < s.waiting.len() ==> (#[trigger] s.waiting[i]).1.client != client
                || s.waiting[i].1.seq != seq,
        rows_sorted(s.waiting),
        s.raft.log.last_index() < u64::MAX,
    ensures
        ({
            let cmd = CommandView { client, seq, op };
            let p = s.raft.propose(io, cmd);
            let index = (s.raft.log.last_index() + 1) as u64;
            let w = Waiting { to: from, req_id, client, seq };
            exists|asked: ServerView| #[trigger]
                asked.drain(p.io) == s.on_request(io, from, req_id, client, seq, op) && asked.raft
                    == p.raft && asked.sm == s.sm && row_of(asked.waiting, index) == Some(w)
                    && forall|i: u64|
                    i != index ==> #[trigger] row_of(asked.waiting, i) == row_of(s.waiting, i)
        }),
{
    lemma_nobody(s.waiting, client, seq, 0);
    let cmd = CommandView { client, seq, op };
    let p = s.raft.propose(io, cmd);
    let index = (s.raft.log.last_index() + 1) as u64;
    let w = Waiting { to: from, req_id, client, seq };
    let asked = ServerView {
        raft: p.raft,
        waiting: row_put(s.waiting, index, w),
        stats: ServerStats { requests: bump(s.stats.requests), ..s.stats },
        ..s
    };
    law_rows_behave(s.waiting, index, w, 0);
    assert forall|i: u64| i != index implies #[trigger] row_of(asked.waiting, i) == row_of(
        s.waiting,
        i,
    ) by {
        law_rows_behave(s.waiting, index, w, i);
    }
    assert(asked.drain(p.io) == s.on_request(io, from, req_id, client, seq, op));
}

proof fn lemma_nobody(rows: Seq<(u64, Waiting)>, client: u32, seq: u64, i: int)
    requires
        0 <= i,
        forall|k: int|
            0 <= k < rows.len() ==> (#[trigger] rows[k]).1.client != client || rows[k].1.seq != seq,
    ensures
        waiting_place(rows, client, seq, i) is None,
    decreases rows.len() - i,
{
    if i < rows.len() {
        lemma_nobody(rows, client, seq, i + 1);
    }
}

proof fn lemma_somebody(rows: Seq<(u64, Waiting)>, client: u32, seq: u64, i: int, k: int)
    requires
        0 <= i <= k < rows.len(),
        rows[k].1.client == client,
        rows[k].1.seq == seq,
        forall|j: int|
            i <= j < k ==> (#[trigger] rows[j]).1.client != client || rows[j].1.seq != seq,
    ensures
        waiting_place(rows, client, seq, i) == Some(k),
    decreases k - i,
{
    if i < k {
        lemma_somebody(rows, client, seq, i + 1, k);
    }
}

/// A request whose copy is already on its way is not proposed again: whoever
/// asked last is answered, at the same index, and nobody twice.
pub proof fn law_copies_in_flight_are_not_proposed_again(
    s: ServerView,
    io: IoState,
    from: NodeId,
    req_id: u64,
    client: u32,
    seq: u64,
    op: OpView,
    k: int,
)
    requires
        s.raft.role == Role::Leader,
        s.sm.cached(client, seq) is None,
        0 <= k < s.waiting.len(),
        s.waiting[k].1.client == client,
        s.waiting[k].1.seq == seq,
        forall|j: int|
            0 <= j < k ==> (#[trigger] s.waiting[j]).1.client != client || s.waiting[j].1.seq != seq,
    ensures
        ({
            let t = s.on_request(io, from, req_id, client, seq, op);
            &&& t.server.raft == s.raft
            &&& t.server.sm == s.sm
            &&& t.io == io
            &&& t.server.waiting.len() == s.waiting.len()
            &&& t.server.waiting[k].0 == s.waiting[k].0
            &&& t.server.waiting[k].1 == (Waiting { to: from, req_id, client, seq })
            &&& forall|j: int|
                0 <= j < s.waiting.len() && j != k ==> #[trigger] t.server.waiting[j] == s.waiting[j]
        }),
{
    lemma_somebody(s.waiting, client, seq, 0, k);
}

/// What arrives is dealt with by what it is: Raft's messages by Raft, requests
/// as requests, and anything else is counted as bad and changes nothing.
pub proof fn law_bytes_are_sorted(s: ServerView, io: IoState, from: NodeId, bytes: Seq<u8>)
    requires
        s.stats.bad_messages < u64::MAX,
    ensures
        ({
            let t = s.on_bytes(io, from, bytes);
            match decoded(bytes) {
                Ok(MessageView::Raft(m)) => t == s.after_raft(s.raft.on_message(io, from, m)),
                Ok(MessageView::Client(ClientMsgView::Request { req_id, client, seq, op })) => t
                    == s.on_request(io, from, req_id, client, seq, op),
                _ => {
                    &&& t.server.raft == s.raft && t.server.sm == s.sm && t.server.waiting
                        == s.waiting
                    &&& t.server.stats.bad_messages == s.stats.bad_messages + 1
                    &&& forall|k: int|
                        io.log.len() <= k < t.io.log.len() ==> #[trigger] t.io.log[k] is Trace
                },
            }
        }),
{
    reveal(ServerView::on_bytes);
}

/// Timers and completions are Raft's, and what they commit is applied at once.
pub proof fn law_raft_events_are_drained(s: ServerView, io: IoState, tag: TimerTag, op: OpId, ok: bool)
    ensures
        s.on_timer(io, tag).server.raft == s.raft.on_timer(io, tag).raft.take_applied(),
        s.on_storage(io, op, ok).server.raft == s.raft.on_storage(io, op, ok).raft.take_applied(),
{
    reveal(ServerView::on_timer);
    reveal(ServerView::on_storage);
    let a = s.raft.on_timer(io, tag);
    let b = s.raft.on_storage(io, op, ok);
    law_nobody_waits_on_a_follower(ServerView { raft: a.raft, ..s }, a.io);
    law_nobody_waits_on_a_follower(ServerView { raft: b.raft, ..s }, b.io);
}

proof fn lemma_let_go_answers(s: ServerView, io: IoState, limit: u64, k: int)
    requires
        rows_sorted(s.waiting),
        0 <= k < s.waiting.len(),
        s.waiting[k].0 <= limit,
    ensures
        ({
            let t = s.let_go(io, limit);
            let w = s.waiting[k].1;
            &&& t.io.log.len() > io.log.len() + k
            &&& t.io.log[io.log.len() + k] == reply_to(w.to, w.req_id, OutcomeView::Dropped)
            &&& forall|i: int| 0 <= i < io.log.len() ==> #[trigger] t.io.log[i] == io.log[i]
        }),
    decreases s.waiting.len(),
{
    assert(s.waiting[0].0 <= limit) by {
        if k > 0 {
            assert(s.waiting[0].0 < s.waiting[k].0);
        }
    }
    let w = s.waiting[0].1;
    let n = ServerView {
        waiting: s.waiting.drop_first(),
        stats: ServerStats { dropped: bump(s.stats.dropped), ..s.stats },
        ..s
    };
    let mid = answered(io, w.to, w.req_id, OutcomeView::Dropped);
    assert(rows_sorted(n.waiting)) by {
        assert forall|i: int, j: int| 0 <= i < j < n.waiting.len() implies (#[trigger] n.waiting[i]).0
            < (#[trigger] n.waiting[j]).0 by {
            assert(s.waiting[i + 1].0 < s.waiting[j + 1].0);
        }
    }
    if k > 0 {
        assert(n.waiting[k - 1] == s.waiting[k]);
        lemma_let_go_answers(n, mid, limit, k - 1);
    } else {
        lemma_let_go_keeps(n, mid, limit);
    }
    let t = s.let_go(io, limit);
    assert forall|i: int| 0 <= i < io.log.len() implies #[trigger] t.io.log[i] == io.log[i] by {
        assert(t.io.log[i] == mid.log[i]);
    }
}

proof fn lemma_let_go_keeps(s: ServerView, io: IoState, limit: u64)
    ensures
        s.let_go(io, limit).io.log.len() >= io.log.len(),
        forall|i: int|
            0 <= i < io.log.len() ==> #[trigger] s.let_go(io, limit).io.log[i] == io.log[i],
    decreases s.waiting.len(),
{
    if s.waiting.len() > 0 && s.waiting[0].0 <= limit {
        let w = s.waiting[0].1;
        let n = ServerView {
            waiting: s.waiting.drop_first(),
            stats: ServerStats { dropped: bump(s.stats.dropped), ..s.stats },
            ..s
        };
        let mid = answered(io, w.to, w.req_id, OutcomeView::Dropped);
        lemma_let_go_keeps(n, mid, limit);
        assert forall|i: int| 0 <= i < io.log.len() implies #[trigger] s.let_go(io, limit).io.log[i]
            == io.log[i] by {
            assert(n.let_go(mid, limit).io.log[i] == mid.log[i]);
        }
    }
}

/// Whoever is let go is told: each client that waited for an index up to the
/// limit gets the word that its request was dropped.
pub proof fn law_clients_let_go_are_told(s: ServerView, io: IoState, limit: u64, k: int)
    requires
        rows_sorted(s.waiting),
        0 <= k < s.waiting.len(),
        s.waiting[k].0 <= limit,
    ensures
        ({
            let w = s.waiting[k].1;
            s.let_go(io, limit).io.log.contains(reply_to(w.to, w.req_id, OutcomeView::Dropped))
        }),
{
    lemma_let_go_answers(s, io, limit, k);
    let t = s.let_go(io, limit);
    assert(t.io.log[io.log.len() + k] == reply_to(
        s.waiting[k].1.to,
        s.waiting[k].1.req_id,
        OutcomeView::Dropped,
    ));
}

/// A server that starts knows nothing of the past but what its disk says: its
/// machine is empty, nobody waits.
pub proof fn law_servers_start_empty(
    io: IoState,
    id: NodeId,
    members: Seq<NodeId>,
    cfg: RaftConfig,
    seed: u64,
)
    ensures
        ({
            let t = ServerView::recover(io, id, members, cfg, seed);
            &&& t.server.sm.state == Map::<Seq<char>, Seq<char>>::empty()
            &&& t.server.sm.sessions.dom() == Set::<u32>::empty()
            &&& t.server.waiting.len() == 0
            &&& t.server.raft == RaftView::recover(
                io,
                id,
                members,
                cfg,
                seed,
            ).raft
        }),
{
    reveal(ServerView::recover);
}

} // verus!
