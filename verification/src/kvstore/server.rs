//! The replicated key-value store: a state machine on top of
//! [`crate::kvstore::raft`], plus the client protocol.
//!
//! Two decisions here do most of the work of being linearizable:
//!
//! * **Reads go through the log.** A `Get` is proposed like any write and
//!   answered when it commits. That is slower than reading local state, and it
//!   is also the only version that is obviously correct: a leader that has been
//!   deposed but does not know it yet cannot serve a stale read, because its
//!   read never commits.
//! * **Every command carries `(client, seq)`, and the state machine keeps the
//!   last result per client.** A retry of the same `seq` is answered from that
//!   cache instead of being applied twice.

pub use crate::kvstore::machine::{ClientMsg, Outcome, StateMachine};

use crate::count::{bump, count_up};
use crate::kvstore::log::{entry_views, Command, CommandView, Entry, EntryView, Op, OpView};
use crate::kvstore::machine::{ClientMsgView, MachineView, OutcomeView};
use crate::kvstore::raft::{Raft, RaftConfig, Role};
use crate::kvstore::raft_model::{RaftView, Stepped};
use crate::kvstore::table::KeyTable;
use crate::kvstore::wire::{decoded, Message, MessageView};
use crate::ordered::{row_gone, row_of, row_put, OrderedMap};
use crate::sim_io::clock::TimerTag;
use crate::sim_io::effect::{Effect, IoState};
use crate::sim_io::Io;
use crate::simcore::disk::OpId;
use crate::simcore::trace::Level;
use crate::simcore::NodeId;
use crate::text::own;
use vstd::prelude::*;

verus! {

/// A client waiting on a log index.
#[derive(Clone, Copy, Debug, PartialEq, Eq)]
pub struct Waiting {
    pub to: NodeId,
    pub req_id: u64,
    pub client: u32,
    pub seq: u64,
}

/// What a server has done.
#[derive(Clone, Copy, Debug, PartialEq, Eq)]
pub struct ServerStats {
    pub requests: u64,
    pub deduped: u64,
    pub redirected: u64,
    pub dropped: u64,
    pub applied: u64,
    pub bad_messages: u64,
}

impl ServerStats {
    /// Nothing has happened yet.
    pub open spec fn zero() -> ServerStats {
        ServerStats {
            requests: 0,
            deduped: 0,
            redirected: 0,
            dropped: 0,
            applied: 0,
            bad_messages: 0,
        }
    }
}

impl Default for ServerStats {
    fn default() -> (r: ServerStats)
        ensures
            r == ServerStats::zero(),
    {
        ServerStats {
            requests: 0,
            deduped: 0,
            redirected: 0,
            dropped: 0,
            applied: 0,
            bad_messages: 0,
        }
    }
}

/// One server of the replicated store.
#[derive(Debug)]
pub struct KvServer {
    pub raft: Raft,
    pub sm: StateMachine,
    /// Clients waiting, by log index.
    pub waiting: OrderedMap<Waiting>,
    pub stats: ServerStats,
}

/// A server, as a mathematical value.
#[verifier::ext_equal]
pub struct ServerView {
    pub raft: RaftView,
    pub sm: MachineView,
    pub waiting: Seq<(u64, Waiting)>,
    pub stats: ServerStats,
}

/// A server and the world around it.
#[verifier::ext_equal]
pub struct Served {
    pub server: ServerView,
    pub io: IoState,
}

impl View for KvServer {
    type V = ServerView;

    open spec fn view(&self) -> ServerView {
        ServerView {
            raft: self.raft@,
            sm: self.sm@,
            waiting: self.waiting@,
            stats: self.stats,
        }
    }
}

/// The first of those waiting, from place `i` on, with this request.
pub open spec fn waiting_place(rows: Seq<(u64, Waiting)>, client: u32, seq: u64, i: int) -> Option<int>
    decreases rows.len() - i,
{
    if i >= rows.len() {
        None
    } else if rows[i].1.client == client && rows[i].1.seq == seq {
        Some(i)
    } else {
        waiting_place(rows, client, seq, i + 1)
    }
}

/// The world after an answer was sent.
pub open spec fn answered(io: IoState, to: NodeId, req_id: u64, outcome: OutcomeView) -> IoState {
    io.did(
        Effect::Send {
            to,
            payload: MessageView::Client(ClientMsgView::Reply { req_id, outcome }).wire(),
        },
    )
}

impl ServerView {
    /// The state machine after one committed entry; whoever waited for its
    /// index is answered. The slot may have been filled by a different command
    /// from a later leader: then the request is let go.
    pub open spec fn apply_entry(self, io: IoState, e: EntryView) -> Served {
        let (sm, outcome) = self.sm.apply(e.cmd);
        let stats = ServerStats { applied: bump(self.stats.applied), ..self.stats };
        match row_of(self.waiting, e.index) {
            Some(w) => {
                let rest = row_gone(self.waiting, e.index);
                if w.client == e.cmd.client && w.seq == e.cmd.seq {
                    Served {
                        server: ServerView { sm, waiting: rest, stats, ..self },
                        io: answered(io, w.to, w.req_id, outcome),
                    }
                } else {
                    Served {
                        server: ServerView {
                            sm,
                            waiting: rest,
                            stats: ServerStats { dropped: bump(stats.dropped), ..stats },
                            ..self
                        },
                        io: answered(io, w.to, w.req_id, OutcomeView::Dropped),
                    }
                }
            },
            None => Served { server: ServerView { sm, stats, ..self }, io },
        }
    }

    /// The state machine after a list of committed entries.
    pub open spec fn apply_all(self, io: IoState, es: Seq<EntryView>) -> Served
        decreases es.len(),
    {
        if es.len() == 0 {
            Served { server: self, io }
        } else {
            let s = self.apply_all(io, es.drop_last());
            s.server.apply_entry(s.io, es.last())
        }
    }

    /// Requests let go from the front while their index is at most `limit`.
    pub open spec fn let_go(self, io: IoState, limit: u64) -> Served
        decreases self.waiting.len(),
    {
        if self.waiting.len() == 0 || self.waiting[0].0 > limit {
            Served { server: self, io }
        } else {
            let w = self.waiting[0].1;
            ServerView {
                waiting: self.waiting.drop_first(),
                stats: ServerStats { dropped: bump(self.stats.dropped), ..self.stats },
                ..self
            }.let_go(answered(io, w.to, w.req_id, OutcomeView::Dropped), limit)
        }
    }

    /// Everything Raft has committed applied, whoever waited answered, and
    /// requests this server can no longer resolve let go: those at or below the
    /// applied point, and all of them once it does not lead.
    pub open spec fn drain(self, io: IoState) -> Served {
        let s = ServerView { raft: self.raft.take_applied(), ..self }.apply_all(
            io,
            self.raft.applicable(),
        );
        let t = s.server.let_go(s.io, s.server.raft.last_applied);
        if t.server.raft.role != Role::Leader {
            t.server.let_go(t.io, u64::MAX)
        } else {
            t
        }
    }

    /// A request refused for want of leadership.
    pub open spec fn redirect(self, io: IoState, from: NodeId, req_id: u64) -> Served {
        Served {
            server: ServerView {
                stats: ServerStats { redirected: bump(self.stats.redirected), ..self.stats },
                ..self
            },
            io: answered(io, from, req_id, OutcomeView::NotLeader(self.raft.leader)),
        }
    }

    /// A client's request.
    pub open spec fn on_request(
        self,
        io: IoState,
        from: NodeId,
        req_id: u64,
        client: u32,
        seq: u64,
        op: OpView,
    ) -> Served {
        let s = ServerView {
            stats: ServerStats { requests: bump(self.stats.requests), ..self.stats },
            ..self
        };
        if self.raft.role != Role::Leader {
            s.redirect(io, from, req_id)
        } else {
            let again = ServerView {
                stats: ServerStats { deduped: bump(s.stats.deduped), ..s.stats },
                ..s
            };
            match self.sm.cached(client, seq) {
                // A retry whose original already committed is answered from the
                // session cache.
                Some(outcome) => Served {
                    server: again,
                    io: answered(io, from, req_id, outcome),
                },
                None => match waiting_place(self.waiting, client, seq, 0) {
                    // A copy is already in flight: answer the newest one.
                    Some(i) => Served {
                        server: ServerView {
                            waiting: self.waiting.update(
                                i,
                                (
                                    self.waiting[i].0,
                                    Waiting { to: from, req_id, ..self.waiting[i].1 },
                                ),
                            ),
                            ..again
                        },
                        io,
                    },
                    None => {
                        let cmd = CommandView { client, seq, op };
                        if self.raft.accepts_commands() {
                            let p = s.raft.propose(io, cmd);
                            let index = (self.raft.log.last_index() + 1) as u64;
                            ServerView {
                                raft: p.raft,
                                waiting: row_put(
                                    s.waiting,
                                    index,
                                    Waiting { to: from, req_id, client, seq },
                                ),
                                ..s
                            }.drain(p.io)
                        } else {
                            let q = s.redirect(io, from, req_id);
                            q.server.drain(q.io)
                        }
                    },
                },
            }
        }
    }

    /// The server once Raft has dealt with something.
    pub open spec fn after_raft(self, s: Stepped) -> Served {
        ServerView { raft: s.raft, ..self }.drain(s.io)
    }

    /// Bytes from the network.
    #[verifier::opaque]
    pub open spec fn on_bytes(self, io: IoState, from: NodeId, bytes: Seq<u8>) -> Served {
        let bad = ServerView {
            stats: ServerStats { bad_messages: bump(self.stats.bad_messages), ..self.stats },
            ..self
        };
        match decoded(bytes) {
            Ok(MessageView::Raft(m)) => self.after_raft(self.raft.on_message(io, from, m)),
            Ok(MessageView::Client(ClientMsgView::Request { req_id, client, seq, op })) => {
                self.on_request(io, from, req_id, client, seq, op)
            },
            Ok(MessageView::Client(ClientMsgView::Reply { .. })) => Served { server: bad, io },
            Err(e) => Served {
                server: bad,
                io: io.trace(
                    Level::Warn,
                    "wire"@,
                    "dropping bad message from "@ + from.label() + ": "@ + e.words(),
                ),
            },
        }
    }

    /// A timer of the server.
    #[verifier::opaque]
    pub open spec fn on_timer(self, io: IoState, tag: TimerTag) -> Served {
        self.after_raft(self.raft.on_timer(io, tag))
    }

    /// A storage completion of the server.
    #[verifier::opaque]
    pub open spec fn on_storage(self, io: IoState, op: OpId, ok: bool) -> Served {
        self.after_raft(self.raft.on_storage(io, op, ok))
    }

    /// A server started from whatever is on its disk. The state machine is
    /// volatile and rebuilt by replaying the log as entries are committed.
    #[verifier::opaque]
    pub open spec fn recover(
        io: IoState,
        id: NodeId,
        members: Seq<NodeId>,
        cfg: RaftConfig,
        seed: u64,
    ) -> Served {
        let s = RaftView::recover(io, id, members, cfg, seed);
        Served {
            server: ServerView {
                raft: s.raft,
                sm: MachineView::fresh(cfg.bug),
                waiting: Seq::empty(),
                stats: ServerStats::zero(),
            },
            io: s.io,
        }
    }
}

fn reply<I: Io + ?Sized>(io: &mut I, to: NodeId, req_id: u64, outcome: Outcome)
    requires
        old(io).valid(),
    ensures
        final(io).valid(),
        final(io).origin() == old(io).origin(),
        final(io).state() == answered(old(io).state(), to, req_id, outcome@),
{
    let bytes = Message::Client(ClientMsg::Reply { req_id, outcome }).encode();
    io.send(to, bytes.as_slice());
}

impl KvServer {
    /// What holds of every server.
    pub open spec fn wf(&self) -> bool {
        self.raft@.wf() && self.sm.wf()
    }

    pub fn recover<I: Io + ?Sized>(
        io: &mut I,
        id: NodeId,
        members: Vec<NodeId>,
        cfg: RaftConfig,
        seed: u64,
    ) -> (r: KvServer)
        requires
            old(io).valid(),
            members@.contains(id),
        ensures
            r.wf(),
            final(io).valid(),
            final(io).origin() == old(io).origin(),
            (Served { server: r@, io: final(io).state() }) == ServerView::recover(
                old(io).state(),
                id,
                members@,
                cfg,
                seed,
            ),
    {
        proof {
            reveal(ServerView::recover);
        }
        let raft = Raft::recover(io, id, members, cfg, seed);
        KvServer {
            raft,
            sm: StateMachine::with_bug(cfg.bug),
            waiting: OrderedMap::new(),
            stats: ServerStats::default(),
        }
    }

    pub fn id(&self) -> (r: NodeId)
        ensures
            r == self@.raft.id,
    {
        self.raft.id()
    }

    pub fn state(&self) -> (r: &KeyTable<String>)
        requires
            self.wf(),
        ensures
            r.wf(),
            r@ == self@.sm.state,
    {
        self.sm.state()
    }

    pub fn stats(&self) -> (r: ServerStats)
        ensures
            r == self@.stats,
    {
        self.stats
    }

    pub fn failed(&self) -> (r: bool)
        ensures
            r == self@.raft.failed,
    {
        self.raft.failed()
    }

    /// Deliver bytes from the network. Malformed input is counted and dropped:
    /// the network corrupts messages, and a node that panics on a bad byte is
    /// a node that can be killed by a cosmic ray.
    pub fn on_bytes<I: Io + ?Sized>(&mut self, io: &mut I, from: NodeId, bytes: &[u8])
        requires
            old(self).wf(),
            old(io).valid(),
        ensures
            final(self).wf(),
            final(io).valid(),
            final(io).origin() == old(io).origin(),
            (Served { server: final(self)@, io: final(io).state() }) == old(self)@.on_bytes(
                old(io).state(),
                from,
                bytes@,
            ),
    {
        proof {
            reveal(ServerView::on_bytes);
        }
        match Message::decode(bytes) {
            Ok(Message::Raft(m)) => {
                self.raft.on_message(io, from, m);
                self.drain(io);
            },
            Ok(Message::Client(ClientMsg::Request { req_id, client, seq, op })) => {
                self.on_request(io, from, req_id, client, seq, op);
            },
            Ok(Message::Client(ClientMsg::Reply { .. })) => {
                // Servers do not receive replies; ignore rather than trust.
                self.stats.bad_messages = count_up(self.stats.bad_messages);
            },
            Err(e) => {
                self.stats.bad_messages = count_up(self.stats.bad_messages);
                let mut s = own("dropping bad message from ");
                s.append(from.text().as_str());
                s.append(": ");
                s.append(e.text().as_str());
                io.trace(Level::Warn, "wire", s);
            },
        }
    }

    pub fn on_timer<I: Io + ?Sized>(&mut self, io: &mut I, tag: TimerTag)
        requires
            old(self).wf(),
            old(io).valid(),
        ensures
            final(self).wf(),
            final(io).valid(),
            final(io).origin() == old(io).origin(),
            (Served { server: final(self)@, io: final(io).state() }) == old(self)@.on_timer(
                old(io).state(),
                tag,
            ),
    {
        proof {
            reveal(ServerView::on_timer);
        }
        self.raft.on_timer(io, tag);
        self.drain(io);
    }

    pub fn on_storage<I: Io + ?Sized>(&mut self, io: &mut I, op: OpId, ok: bool)
        requires
            old(self).wf(),
            old(io).valid(),
        ensures
            final(self).wf(),
            final(io).valid(),
            final(io).origin() == old(io).origin(),
            (Served { server: final(self)@, io: final(io).state() }) == old(self)@.on_storage(
                old(io).state(),
                op,
                ok,
            ),
    {
        proof {
            reveal(ServerView::on_storage);
        }
        self.raft.on_storage(io, op, ok);
        self.drain(io);
    }

    fn find_waiting(&self, client: u32, seq: u64) -> (r: Option<usize>)
        ensures
            match r {
                Some(i) => waiting_place(self@.waiting, client, seq, 0) == Some(i as int) && i
                    < self@.waiting.len(),
                None => waiting_place(self@.waiting, client, seq, 0) is None,
            },
    {
        let mut i: usize = 0;
        while i < self.waiting.len()
            invariant
                i <= self@.waiting.len(),
                waiting_place(self@.waiting, client, seq, 0) == waiting_place(
                    self@.waiting,
                    client,
                    seq,
                    i as int,
                ),
            decreases self@.waiting.len() - i,
        {
            let w = self.waiting.row(i).1;
            if w.client == client && w.seq == seq {
                return Some(i);
            }
            i += 1;
        }
        None
    }

    fn redirect<I: Io + ?Sized>(&mut self, io: &mut I, from: NodeId, req_id: u64)
        requires
            old(self).wf(),
            old(io).valid(),
        ensures
            final(self).wf(),
            final(io).valid(),
            final(io).origin() == old(io).origin(),
            (Served { server: final(self)@, io: final(io).state() }) == old(self)@.redirect(
                old(io).state(),
                from,
                req_id,
            ),
    {
        self.stats.redirected = count_up(self.stats.redirected);
        reply(io, from, req_id, Outcome::NotLeader(self.raft.leader_hint()));
    }

    #[verifier::spinoff_prover]
    fn on_request<I: Io + ?Sized>(
        &mut self,
        io: &mut I,
        from: NodeId,
        req_id: u64,
        client: u32,
        seq: u64,
        op: Op,
    )
        requires
            old(self).wf(),
            old(io).valid(),
        ensures
            final(self).wf(),
            final(io).valid(),
            final(io).origin() == old(io).origin(),
            (Served { server: final(self)@, io: final(io).state() }) == old(self)@.on_request(
                old(io).state(),
                from,
                req_id,
                client,
                seq,
                op@,
            ),
    {
        self.stats.requests = count_up(self.stats.requests);
        if !self.raft.is_leader() {
            self.redirect(io, from, req_id);
            return;
        }
        // A retry whose original already committed is answered from the session
        // cache. Re-proposing it would apply the command a second time.
        if let Some(outcome) = self.sm.cached(client, seq) {
            self.stats.deduped = count_up(self.stats.deduped);
            reply(io, from, req_id, outcome);
            return;
        }
        // Also deduplicate against a copy that is already in flight, so a
        // duplicated network message does not occupy two log slots.
        if let Some(i) = self.find_waiting(client, seq) {
            self.stats.deduped = count_up(self.stats.deduped);
            // Answer the newest copy of the request.
            let (index, mut w) = *self.waiting.row(i);
            w.to = from;
            w.req_id = req_id;
            self.waiting.set_row(i, (index, w));
            return;
        }
        let cmd = Command { client, seq, op };
        match self.raft.propose(io, cmd) {
            Some(index) => {
                self.waiting.insert(index, Waiting { to: from, req_id, client, seq });
            },
            None => {
                self.redirect(io, from, req_id);
            },
        }
        self.drain(io);
    }

    fn apply_entry<I: Io + ?Sized>(&mut self, io: &mut I, entry: &Entry)
        requires
            old(self).wf(),
            old(io).valid(),
        ensures
            final(self).wf(),
            final(io).valid(),
            final(io).origin() == old(io).origin(),
            final(self)@.raft == old(self)@.raft,
            (Served { server: final(self)@, io: final(io).state() }) == old(self)@.apply_entry(
                old(io).state(),
                entry@,
            ),
    {
        let index: u64 = entry.index;
        let outcome = self.sm.apply(&entry.cmd);
        self.stats.applied = count_up(self.stats.applied);
        if let Some(w) = self.waiting.remove(index) {
            // The slot may have been filled by a different command from a later
            // leader. Only answer if this is genuinely our request.
            if w.client == entry.cmd.client && w.seq == entry.cmd.seq {
                reply(io, w.to, w.req_id, outcome);
            } else {
                self.stats.dropped = count_up(self.stats.dropped);
                reply(io, w.to, w.req_id, Outcome::Dropped);
            }
        }
    }

    fn let_go<I: Io + ?Sized>(&mut self, io: &mut I, limit: u64)
        requires
            old(self).wf(),
            old(io).valid(),
        ensures
            final(self).wf(),
            final(io).valid(),
            final(io).origin() == old(io).origin(),
            (Served { server: final(self)@, io: final(io).state() }) == old(self)@.let_go(
                old(io).state(),
                limit,
            ),
    {
        while self.waiting.len() > 0 && self.waiting.row(0).0 <= limit
            invariant
                self.wf(),
                io.valid(),
                io.origin() == old(io).origin(),
                old(self)@.let_go(old(io).state(), limit) == self@.let_go(io.state(), limit),
            decreases self@.waiting.len(),
        {
            let (_, w) = self.waiting.pop_first();
            self.stats.dropped = count_up(self.stats.dropped);
            reply(io, w.to, w.req_id, Outcome::Dropped);
        }
    }

    /// Apply everything Raft has committed, answer whoever was waiting, and
    /// release requests this node can no longer resolve.
    fn drain<I: Io + ?Sized>(&mut self, io: &mut I)
        requires
            old(self).wf(),
            old(io).valid(),
        ensures
            final(self).wf(),
            final(io).valid(),
            final(io).origin() == old(io).origin(),
            (Served { server: final(self)@, io: final(io).state() }) == old(self)@.drain(
                old(io).state(),
            ),
    {
        let entries = self.raft.take_applied();
        let ghost v = entry_views(entries@);
        let ghost start = self@;
        let mut i: usize = 0;
        while i < entries.len()
            invariant
                i <= entries@.len(),
                v == entry_views(entries@),
                self.wf(),
                io.valid(),
                io.origin() == old(io).origin(),
                (Served { server: self@, io: io.state() }) == start.apply_all(
                    old(io).state(),
                    v.take(i as int),
                ),
            decreases entries@.len() - i,
        {
            self.apply_entry(io, &entries[i]);
            proof {
                let t = v.take(i + 1);
                assert(t.drop_last() =~= v.take(i as int));
                assert(t.last() == entries@[i as int]@);
            }
            i += 1;
        }
        assert(v.take(i as int) =~= v);
        // Anything still waiting on an index at or below the applied point can
        // never be answered by this node.
        let applied: u64 = self.raft.last_applied();
        self.let_go(io, applied);
        // Losing leadership means the pending proposals are no longer this
        // node's to resolve. Telling the client "unknown" promptly is better
        // than leaving it to time out, and it is safe: the retry carries the
        // same seq, so it commits at most once.
        if self.raft.role() != Role::Leader {
            self.let_go(io, u64::MAX);
        }
    }
}

// ---- what a server keeps to ----------------------------------------------

proof fn lemma_apply_keeps_role(s: ServerView, io: IoState, es: Seq<EntryView>)
    ensures
        s.apply_all(io, es).server.raft == s.raft,
    decreases es.len(),
{
    if es.len() > 0 {
        lemma_apply_keeps_role(s, io, es.drop_last());
    }
}

proof fn lemma_let_go(s: ServerView, io: IoState, limit: u64)
    ensures
        s.let_go(io, limit).server.raft == s.raft,
        s.let_go(io, limit).server.sm == s.sm,
        limit == u64::MAX ==> s.let_go(io, limit).server.waiting.len() == 0,
        s.let_go(io, limit).server.waiting.len() > 0 ==> s.let_go(
            io,
            limit,
        ).server.waiting[0].0 > limit,
    decreases s.waiting.len(),
{
    if s.waiting.len() > 0 && s.waiting[0].0 <= limit {
        let w = s.waiting[0].1;
        lemma_let_go(
            ServerView {
                waiting: s.waiting.drop_first(),
                stats: ServerStats { dropped: bump(s.stats.dropped), ..s.stats },
                ..s
            },
            answered(io, w.to, w.req_id, OutcomeView::Dropped),
            limit,
        );
    }
}

/// A server that does not lead keeps no client waiting: whatever it dealt with,
/// every request it cannot resolve has been let go.
pub proof fn law_nobody_waits_on_a_follower(s: ServerView, io: IoState)
    ensures
        s.drain(io).server.raft.role != Role::Leader ==> s.drain(io).server.waiting.len() == 0,
        s.drain(io).server.raft == s.raft.take_applied(),
        s.drain(io).server.waiting.len() > 0 ==> s.drain(io).server.waiting[0].0
            > s.raft.take_applied().last_applied,
{
    let a = ServerView { raft: s.raft.take_applied(), ..s };
    lemma_apply_keeps_role(a, io, s.raft.applicable());
    let b = a.apply_all(io, s.raft.applicable());
    lemma_let_go(b.server, b.io, b.server.raft.last_applied);
    let t = b.server.let_go(b.io, b.server.raft.last_applied);
    lemma_let_go(t.server, t.io, u64::MAX);
}

/// A request that reaches a server that does not lead is refused with a hint,
/// and changes nothing else.
pub proof fn law_followers_redirect(
    s: ServerView,
    io: IoState,
    from: NodeId,
    req_id: u64,
    client: u32,
    seq: u64,
    op: OpView,
)
    requires
        s.raft.role != Role::Leader,
    ensures
        ({
            let t = s.on_request(io, from, req_id, client, seq, op);
            &&& t.server.raft == s.raft
            &&& t.server.sm == s.sm
            &&& t.server.waiting == s.waiting
            &&& t.io == answered(io, from, req_id, OutcomeView::NotLeader(s.raft.leader))
        }),
{
}

/// A retry of a request that was applied is answered from memory: nothing is
/// proposed again.
pub proof fn law_retries_are_answered_from_memory(
    s: ServerView,
    io: IoState,
    from: NodeId,
    req_id: u64,
    client: u32,
    seq: u64,
    op: OpView,
)
    requires
        s.raft.role == Role::Leader,
        s.sm.cached(client, seq) is Some,
    ensures
        ({
            let t = s.on_request(io, from, req_id, client, seq, op);
            &&& t.server.raft == s.raft
            &&& t.server.sm == s.sm
            &&& t.io == answered(io, from, req_id, s.sm.cached(client, seq)->Some_0)
        }),
{
}

} // verus!
