//! What a Raft node keeps to, whatever arrives.
//!
//! These are the promises one node can keep by itself, at every event: its term
//! never goes back, it votes once in a term, it never takes a commit back, it
//! never speaks in a term that a crash could make it forget, and it never
//! claims to hold durably what its log does not have.

use crate::count::{bump, capped_u64};
use crate::kvstore::bug::InjectedBug;
use crate::kvstore::layout_laws::{
    aligned, law_appending_keeps_offsets, law_truncating_keeps_offsets, lemma_append_aligned,
};
use crate::kvstore::log::{
    law_append_keeps_wf, lemma_last_index, lemma_truncate_wf, CommandView, EntryView, LogView, NO_INDEX,
};
use crate::kvstore::persist::{BatchEvent, Persist, Span};
use crate::kvstore::raft::{
    lemma_append_all_entries, lemma_plan, lemma_plan_storable, lemma_storable_end,
    storable_after,
};
use crate::kvstore::raft_model::{
    absorbed, all_at, at_least, first_new, follow_on, joining, least, lemma_joining, or_zero, parked_below,
    reached_by, truth, up_to_term, RaftConfig, RaftStats, RaftView, Role, Stepped,
};
use crate::kvstore::recovery::{law_recovery_is_contiguous, recovered, recovered_state};
use crate::kvstore::wire::{MessageView, RaftMsgView};
use crate::sim_io::clock::TimerTag;
use crate::sim_io::effect::{Effect, IoState};
use crate::simcore::disk::OpId;
use crate::simcore::NodeId;
use crate::simcore::trace::Level;
use crate::text::decimal;
use vstd::prelude::*;

verus! {

/// Whether a payload is a Raft message of a term no later than `cap`.
pub open spec fn spoken_by(payload: Seq<u8>, cap: u64) -> bool {
    exists|m: RaftMsgView|
        #[trigger] MessageView::Raft(m).wire() == payload && m.term() <= cap
}

/// Whether `b` lists what `a` does and then only effects whose messages are of
/// a term no later than `cap`.
pub open spec fn adds_only(a: Seq<Effect>, b: Seq<Effect>, cap: u64) -> bool {
    &&& a.len() <= b.len()
    &&& forall|i: int| 0 <= i < a.len() ==> #[trigger] b[i] == a[i]
    &&& forall|i: int|
        a.len() <= i < b.len() ==> ((#[trigger] b[i]) matches Effect::Send { payload, .. }
            ==> spoken_by(payload, cap))
}

/// Whether everything a node claims to have synced is in its log.
pub open spec fn claims_ok(r: RaftView) -> bool {
    &&& r.synced_index <= r.log.last_index()
    &&& forall|i: int| 0 <= i < r.parked.len() ==> (#[trigger] r.parked[i]).1 <= r.log.last_index()
}

/// What every event keeps to.
pub open spec fn orderly(s: Stepped, t: Stepped) -> bool {
    let (a, b) = (s.raft, t.raft);
    &&& b.id == a.id
    &&& b.members == a.members
    &&& b.cfg == a.cfg
    &&& b.term >= a.term
    &&& b.term == a.term && a.voted_for is Some ==> b.voted_for == a.voted_for
    &&& b.commit_index >= a.commit_index
    &&& b.last_applied == a.last_applied
    &&& b.durable_term >= a.durable_term
    &&& a.wf() ==> b.wf()
    &&& a.wf() && claims_ok(a) ==> claims_ok(b)
    &&& a.wf() && aligned(a.log) ==> aligned(b.log)
    &&& a.cfg.bug != InjectedBug::VoteBeforeSync ==> adds_only(s.io.log, t.io.log, b.durable_term)
}

proof fn lemma_trans(s: Stepped, t: Stepped, u: Stepped)
    requires
        orderly(s, t),
        orderly(t, u),
    ensures
        orderly(s, u),
{
    if s.raft.cfg.bug != InjectedBug::VoteBeforeSync {
        let (a, b, c) = (s.io.log, t.io.log, u.io.log);
        assert forall|i: int| 0 <= i < a.len() implies #[trigger] c[i] == a[i] by {
            assert(b[i] == a[i]);
        }
        assert forall|i: int|
            a.len() <= i < c.len() && ((#[trigger] c[i]) is Send) implies spoken_by(
            c[i]->payload,
            u.raft.durable_term,
        ) by {
            if i < b.len() {
                assert(c[i] == b[i]);
                assert(spoken_by(b[i]->payload, t.raft.durable_term));
                let m = choose|m: RaftMsgView|
                    #[trigger] MessageView::Raft(m).wire() == b[i]->payload && m.term()
                        <= t.raft.durable_term;
                assert(MessageView::Raft(m).wire() == c[i]->payload);
            }
        }
    }
}

/// A change of state that touches nothing the promises speak of, and effects
/// that are no messages.
pub open spec fn minor(s: Stepped, t: Stepped) -> bool {
    let (a, b) = (s.raft, t.raft);
    &&& b.id == a.id
    &&& b.members == a.members
    &&& b.cfg == a.cfg
    &&& b.term == a.term
    &&& b.voted_for == a.voted_for
    &&& b.commit_index == a.commit_index
    &&& b.last_applied == a.last_applied
    &&& b.durable_term == a.durable_term
    &&& b.log == a.log
    &&& b.synced_index == a.synced_index
    &&& b.parked == a.parked
    &&& silent(s.io.log, t.io.log)
}

/// Whether `b` lists what `a` does and then no message.
pub open spec fn silent(a: Seq<Effect>, b: Seq<Effect>) -> bool {
    &&& a.len() <= b.len()
    &&& forall|i: int| 0 <= i < a.len() ==> #[trigger] b[i] == a[i]
    &&& forall|i: int| a.len() <= i < b.len() ==> !((#[trigger] b[i]) is Send)
}

proof fn lemma_minor(s: Stepped, t: Stepped)
    requires
        minor(s, t),
    ensures
        orderly(s, t),
{
}

proof fn lemma_timer(r: RaftView, io: IoState)
    ensures
        minor(Stepped { raft: r, io }, r.reset_election_timer(io)),
        minor(Stepped { raft: r, io }, r.reset_heartbeat_timer(io)),
        silent(io.log, r.heartbeat_timer.disarmed(io).log),
        silent(io.log, r.election_timer.disarmed(io).log),
{
}

proof fn lemma_persist_state(r: RaftView, io: IoState, action: Persist, span: Span)
    ensures
        minor(Stepped { raft: r, io }, r.persist_state(io, action, span)),
{
}

proof fn lemma_write_log(r: RaftView, io: IoState, batch: u64, from: u64, truncated: bool)
    ensures
        minor(Stepped { raft: r, io }, r.write_log_from(io, batch, from, truncated)),
{
}

proof fn lemma_send(r: RaftView, io: IoState, to: NodeId, msg: RaftMsgView)
    ensures
        orderly(Stepped { raft: r, io }, Stepped { raft: r, io: r.send(io, to, msg) }),
{
    if r.cfg.bug != InjectedBug::VoteBeforeSync && msg.term() <= r.durable_term {
        assert(MessageView::Raft(msg).wire() == MessageView::Raft(msg).wire());
        assert(spoken_by(MessageView::Raft(msg).wire(), r.durable_term));
    }
}

proof fn lemma_step_down(r: RaftView, io: IoState, term: u64)
    requires
        term > r.term,
    ensures
        orderly(Stepped { raft: r, io }, r.step_down(io, term)),
        r.step_down(io, term).raft.term == term,
        r.step_down(io, term).raft.log == r.log,
        r.step_down(io, term).raft.cfg == r.cfg,
        r.step_down(io, term).raft.voted_for is None,
        r.step_down(io, term).raft.role == Role::Follower,
        r.step_down(io, term).raft.durable_term == r.durable_term,
{
    reveal(RaftView::step_down);
}

proof fn lemma_step_down_and_persist(r: RaftView, io: IoState, term: u64)
    requires
        term > r.term,
    ensures
        orderly(Stepped { raft: r, io }, r.step_down_and_persist(io, term)),
{
    let s = r.step_down(io, term);
    lemma_step_down(r, io, term);
    lemma_persist_state(s.raft, s.io, Persist::Quiet, Span::blank());
    lemma_minor(s, s.raft.persist_state(s.io, Persist::Quiet, Span::blank()));
    lemma_trans(Stepped { raft: r, io }, s, r.step_down_and_persist(io, term));
}

proof fn lemma_candidate(r: RaftView, io: IoState)
    ensures
        orderly(Stepped { raft: r, io }, r.become_candidate(io)),
{
    reveal(RaftView::become_candidate);
}

proof fn lemma_send_append(r: RaftView, io: IoState, to: NodeId)
    ensures
        orderly(Stepped { raft: r, io }, r.send_append_to(io, to)),
        r.send_append_to(io, to).raft.log == r.log,
        r.send_append_to(io, to).raft.role == r.role,
{
    lemma_send(r, io, to, r.append_for(to));
}

proof fn lemma_broadcast(r: RaftView, io: IoState, n: int)
    ensures
        orderly(Stepped { raft: r, io }, r.broadcast_append(io, n)),
        r.broadcast_append(io, n).raft.log == r.log,
        r.broadcast_append(io, n).raft.role == r.role,
    decreases n,
{
    if n > 0 {
        lemma_broadcast(r, io, n - 1);
        let s = r.broadcast_append(io, n - 1);
        lemma_send_append(s.raft, s.io, r.peers()[n - 1]);
        lemma_trans(Stepped { raft: r, io }, s, r.broadcast_append(io, n));
    }
}

proof fn lemma_add_entry(r: RaftView, io: IoState, cmd: CommandView)
    requires
        r.has_room(),
    ensures
        orderly(Stepped { raft: r, io }, r.add_entry(io, cmd)),
        r.add_entry(io, cmd).raft.log == r.log.append(r.own_entry(cmd)),
        r.add_entry(io, cmd).raft.role == r.role,
        r.add_entry(io, cmd).raft.term == r.term,
{
    let e = r.own_entry(cmd);
    let q = RaftView { log: r.log.append(e), ..r };
    let span = Span::of_log(e.index, u64::MAX);
    let begun = q.begin(
        Persist::LogDurable { index: q.log.last_index(), reply_to: None, reply_term: 0 },
        span,
    );
    lemma_write_log(begun, io, q.persister.fresh(), e.index, false);
    if r.wf() {
        law_append_keeps_wf(r.log, e);
        if aligned(r.log) {
            lemma_append_aligned(r.log, e);
        }
        assert(q.log.last_index() >= r.log.last_index());
    }
}

proof fn lemma_leader(r: RaftView, io: IoState)
    ensures
        orderly(Stepped { raft: r, io }, r.become_leader(io)),
{
    reveal(RaftView::become_leader);
    if r.has_room() {
        let next = (r.log.last_index() + 1) as u64;
        let full = r.become_leader(io);
        let q = RaftView {
            role: Role::Leader,
            leader: Some(r.id),
            stats: RaftStats {
                elections_won: bump(r.stats.elections_won),
                ..r.stats
            },
            next_index: all_at(Map::empty(), r.peers(), next),
            match_index: all_at(Map::empty(), r.peers(), NO_INDEX),
            ..r
        };
        let out = io.observe("leader"@, seq![r.term, r.log.last_index()]).trace(
            Level::Info,
            "raft"@,
            "elected leader for term "@ + decimal(r.term as nat) + " with "@
                + decimal(r.votes.len()) + " votes"@,
        );
        let s0 = Stepped { raft: r, io };
        let s1 = Stepped { raft: q, io: out };
        lemma_minor(s0, s1);
        lemma_add_entry(q, out, CommandView::noop());
        let s2 = q.add_entry(out, CommandView::noop());
        lemma_trans(s0, s1, s2);
        let quiet = RaftView { election_timer: s2.raft.election_timer.unset(), ..s2.raft };
        let s3 = Stepped { raft: quiet, io: s2.raft.election_timer.disarmed(s2.io) };
        lemma_timer(s2.raft, s2.io);
        lemma_minor(s2, s3);
        lemma_trans(s0, s2, s3);
        lemma_broadcast(quiet, s3.io, quiet.peers().len() as int);
        let s4 = quiet.broadcast_append(s3.io, quiet.peers().len() as int);
        lemma_trans(s0, s3, s4);
        lemma_timer(s4.raft, s4.io);
        lemma_minor(s4, full);
        lemma_trans(s0, s4, full);
    }
}

proof fn lemma_vote_resp(r: RaftView, io: IoState, from: NodeId, term: u64, granted: bool)
    ensures
        orderly(Stepped { raft: r, io }, r.on_vote_resp(io, from, term, granted)),
{
    reveal(RaftView::on_vote_resp);
    if term > r.term {
        lemma_step_down_and_persist(r, io, term);
    } else if r.role == Role::Candidate && term == r.term && granted {
        let q = RaftView { votes: r.votes.insert(from.0), ..r };
        lemma_minor(Stepped { raft: r, io }, Stepped { raft: q, io });
        lemma_leader(q, io);
        lemma_trans(
            Stepped { raft: r, io },
            Stepped { raft: q, io },
            q.become_leader(io),
        );
    }
}

proof fn lemma_request_vote(
    r: RaftView,
    io: IoState,
    from: NodeId,
    term: u64,
    candidate: NodeId,
    last_index: u64,
    last_term: u64,
)
    ensures
        orderly(
            Stepped { raft: r, io },
            r.on_request_vote(io, from, term, candidate, last_index, last_term),
        ),
{
    reveal(RaftView::on_request_vote);
    let s0 = Stepped { raft: r, io };
    if term < r.term {
        lemma_send(
            r,
            io,
            from,
            RaftMsgView::RequestVoteResp { term: r.term, granted: false },
        );
    } else {
        let newer = term > r.term;
        let s = if newer {
            r.step_down(io, term)
        } else {
            s0
        };
        if newer {
            lemma_step_down(r, io, term);
        }
        let free = s.raft.voted_for is None || s.raft.voted_for == Some(candidate);
        let recent = s.raft.log.is_up_to_date(last_index, last_term);
        let granted = free && recent;
        let voted = RaftView { voted_for: Some(candidate), ..s.raft };
        let t = if granted {
            voted.reset_election_timer(s.io)
        } else {
            s
        };
        if granted {
            assert(orderly(s, Stepped { raft: voted, io: s.io }));
            lemma_timer(voted, s.io);
            lemma_minor(Stepped { raft: voted, io: s.io }, t);
            lemma_trans(s, Stepped { raft: voted, io: s.io }, t);
        }
        lemma_trans(s0, s, t);
        let out = t.io.trace(
            Level::Debug,
            "raft"@,
            "vote request from "@ + candidate.label() + " term="@ + decimal(
                term as nat,
            ) + " granted="@ + truth(granted) + " (up_to_date="@
                + truth(recent) + ", free="@
                + truth(free) + ")"@,
        );
        let t2 = Stepped { raft: t.raft, io: out };
        lemma_minor(t, t2);
        lemma_trans(s0, t, t2);
        let reply = RaftMsgView::RequestVoteResp { term: t.raft.term, granted };
        let vote = Persist::VoteReply { to: from, term: t.raft.term, granted };
        lemma_persist_state(t.raft, out, vote, Span::blank());
        lemma_minor(t2, t.raft.persist_state(out, vote, Span::blank()));
        lemma_trans(s0, t2, t.raft.persist_state(out, vote, Span::blank()));
        let u = t.raft.persist_state(out, Persist::Quiet, Span::blank());
        lemma_persist_state(t.raft, out, Persist::Quiet, Span::blank());
        lemma_minor(t2, u);
        lemma_trans(s0, t2, u);
        lemma_send(u.raft, u.io, from, reply);
        lemma_trans(s0, u, Stepped { raft: u.raft, io: u.raft.send(u.io, from, reply) });
        lemma_send(t.raft, out, from, reply);
        lemma_trans(s0, t2, Stepped { raft: t.raft, io: t.raft.send(out, from, reply) });
    }
}

proof fn lemma_maybe_commit(r: RaftView, io: IoState)
    ensures
        orderly(Stepped { raft: r, io }, r.maybe_commit(io)),
        r.maybe_commit(io).raft.log == r.log,
        r.maybe_commit(io).raft.role == r.role,
        r.maybe_commit(io).raft.term == r.term,
{
    reveal(RaftView::maybe_commit);
}

proof fn lemma_append_resp(
    r: RaftView,
    io: IoState,
    from: NodeId,
    term: u64,
    success: bool,
    match_index: u64,
    conflict_index: u64,
)
    ensures
        orderly(
            Stepped { raft: r, io },
            r.on_append_resp(io, from, term, success, match_index, conflict_index),
        ),
{
    reveal(RaftView::on_append_resp);
    let s0 = Stepped { raft: r, io };
    let full = r.on_append_resp(io, from, term, success, match_index, conflict_index);
    if term > r.term {
        lemma_step_down_and_persist(r, io, term);
    } else if r.role == Role::Leader && term == r.term {
        if success {
            let known = or_zero(r.match_index, from.0);
            let m = if match_index > known {
                match_index
            } else {
                known
            };
            let q = RaftView {
                match_index: r.match_index.insert(from.0, m),
                next_index: r.next_index.insert(from.0, bump(m)),
                ..r
            };
            let s1 = Stepped { raft: q, io };
            lemma_minor(s0, s1);
            lemma_maybe_commit(q, io);
            let s2 = q.maybe_commit(io);
            lemma_trans(s0, s1, s2);
            lemma_send_append(s2.raft, s2.io, from);
            lemma_trans(s0, s2, s2.raft.send_append_to(s2.io, from));
        } else {
            let q = RaftView { next_index: full.raft.next_index, ..r };
            lemma_minor(s0, Stepped { raft: q, io });
            lemma_send_append(q, io, from);
            lemma_trans(s0, Stepped { raft: q, io }, q.send_append_to(io, from));
        }
    }
}

proof fn lemma_parked_below(parked: Seq<(u64, u64)>, cap: u64)
    ensures
        forall|i: int|
            0 <= i < parked_below(parked, cap).len() ==> (#[trigger] parked_below(parked, cap)[i]).1
                <= cap,
    decreases parked.len(),
{
    if parked.len() > 0 {
        lemma_parked_below(parked.drop_last(), cap);
        let (a, b) = (parked_below(parked.drop_last(), cap), parked_below(parked, cap));
        assert forall|i: int| 0 <= i < b.len() implies (#[trigger] b[i]).1 <= cap by {
            if i < a.len() {
                assert(b[i] == a[i]);
            }
        }
    }
}

proof fn lemma_truncate(r: RaftView, io: IoState, at: u64)
    requires
        r.wf(),
        at > 0,
    ensures
        orderly(Stepped { raft: r, io }, r.truncate(io, at)),
        r.truncate(io, at).raft.log == r.log.truncate_from(at),
        r.truncate(io, at).raft.term == r.term,
        r.truncate(io, at).raft.durable_term == r.durable_term,
{
    let t = r.truncate(io, at).raft;
    lemma_truncate_wf(r.log, at);
    if aligned(r.log) {
        law_truncating_keeps_offsets(r.log, at);
    }
    lemma_last_index(r.log);
    lemma_last_index(t.log);
    lemma_parked_below(r.parked, (at - 1) as u64);
    if claims_ok(r) {
        lemma_parked_kept(r.parked, (at - 1) as u64, r.log.last_index());
    }
}

proof fn lemma_parked_kept(parked: Seq<(u64, u64)>, cap: u64, limit: u64)
    requires
        forall|i: int| 0 <= i < parked.len() ==> (#[trigger] parked[i]).1 <= limit,
    ensures
        forall|i: int|
            0 <= i < parked_below(parked, cap).len() ==> (#[trigger] parked_below(parked, cap)[i]).1
                <= limit,
    decreases parked.len(),
{
    if parked.len() > 0 {
        assert(parked[parked.len() - 1].1 <= limit);
        assert forall|i: int| 0 <= i < parked.drop_last().len() implies (
        #[trigger] parked.drop_last()[i]).1 <= limit by {
            assert(parked.drop_last()[i] == parked[i]);
        }
        lemma_parked_kept(parked.drop_last(), cap, limit);
        let (a, b) = (parked_below(parked.drop_last(), cap), parked_below(parked, cap));
        assert forall|i: int| 0 <= i < b.len() implies (#[trigger] b[i]).1 <= limit by {
            if i < a.len() {
                assert(b[i] == a[i]);
            }
        }
    }
}

proof fn lemma_heed(r: RaftView, io: IoState, term: u64, leader: NodeId)
    requires
        term >= r.term,
    ensures
        orderly(Stepped { raft: r, io }, r.heed_leader(io, term, leader)),
        r.heed_leader(io, term, leader).raft.log == r.log,
        r.heed_leader(io, term, leader).raft.term == term,
        r.heed_leader(io, term, leader).raft.cfg == r.cfg,
{
    reveal(RaftView::heed_leader);
    let s0 = Stepped { raft: r, io };
    let s = if term > r.term {
        r.step_down(io, term)
    } else {
        s0
    };
    if term > r.term {
        lemma_step_down(r, io, term);
    }
    let t = if s.raft.role != Role::Follower {
        Stepped {
            raft: RaftView {
                role: Role::Follower,
                votes: Set::empty(),
                heartbeat_timer: s.raft.heartbeat_timer.unset(),
                ..s.raft
            },
            io: s.raft.heartbeat_timer.disarmed(s.io),
        }
    } else {
        s
    };
    lemma_timer(s.raft, s.io);
    lemma_minor(s, t);
    lemma_trans(s0, s, t);
    let q = RaftView { leader: Some(leader), ..t.raft };
    lemma_minor(t, Stepped { raft: q, io: t.io });
    lemma_trans(s0, t, Stepped { raft: q, io: t.io });
    lemma_timer(q, t.io);
    lemma_minor(Stepped { raft: q, io: t.io }, q.reset_election_timer(t.io));
    lemma_trans(s0, Stepped { raft: q, io: t.io }, q.reset_election_timer(t.io));
}

proof fn lemma_store(
    r: RaftView,
    io: IoState,
    from: NodeId,
    prev_index: u64,
    entries: Seq<EntryView>,
    i: int,
    cut: Option<u64>,
    dirty: bool,
)
    requires
        r.wf(),
        0 <= i <= entries.len(),
        cut is Some ==> cut->Some_0 > 0,
        storable_after(
            match cut {
                Some(at) => r.log.truncate_from(at),
                None => r.log,
            },
            entries.skip(i),
        ),
    ensures
        orderly(
            Stepped { raft: r, io },
            r.store_entries(io, from, prev_index, entries, i, cut, dirty),
        ),
{
    reveal(RaftView::store_entries);
    let s0 = Stepped { raft: r, io };
    let s = match cut {
        Some(at) => r.truncate(io, at),
        None => s0,
    };
    if cut is Some {
        lemma_truncate(r, io, cut->Some_0);
    }
    let tail = entries.skip(i);
    let last = capped_u64(prev_index + entries.len());
    let start = capped_u64(prev_index + 1 + i);
    let q = RaftView {
        log: s.raft.log.append_all(tail),
        stats: RaftStats {
            entries_replicated: capped_u64(
                s.raft.stats.entries_replicated + tail.len(),
            ),
            ..s.raft.stats
        },
        ..s.raft
    };
    lemma_append_all_entries(s.raft.log, tail);
    law_appending_keeps_offsets(s.raft.log, tail);
    lemma_storable_end(s.raft.log, tail);
    lemma_last_index(s.raft.log);
    lemma_last_index(q.log);
    let s1 = Stepped { raft: q, io: s.io };
    assert(orderly(s, s1));
    lemma_trans(s0, s, s1);
    let batch = q.persister.fresh();
    let begun = q.begin(
        Persist::LogDurable {
            index: q.log.last_index(),
            reply_to: Some(from),
            reply_term: q.term,
        },
        Span::of_log(
            if tail.len() > 0 {
                start
            } else {
                0
            },
            last,
        ),
    );
    let s2 = Stepped { raft: begun, io: s.io };
    lemma_minor(s1, s2);
    lemma_trans(s0, s1, s2);
    let t = if dirty {
        begun.write_hard_state(s.io, batch)
    } else {
        s2
    };
    lemma_minor(s2, t);
    lemma_trans(s0, s2, t);
    let u = t.raft.write_log_from(t.io, batch, start, cut is Some);
    lemma_write_log(t.raft, t.io, batch, start, cut is Some);
    lemma_minor(t, u);
    lemma_trans(s0, t, u);
    let ack = RaftMsgView::AppendEntriesResp {
        term: u.raft.term,
        success: true,
        match_index: last,
        conflict_index: NO_INDEX,
    };
    lemma_send(u.raft, u.io, from, ack);
    lemma_trans(s0, u, Stepped { raft: u.raft, io: u.raft.send(u.io, from, ack) });
}

proof fn lemma_follow_commit(r: RaftView, io: IoState, leader_commit: u64, last: u64)
    ensures
        orderly(Stepped { raft: r, io }, r.follow_commit(io, leader_commit, last)),
{
}

proof fn lemma_confirm(r: RaftView, io: IoState, from: NodeId, last: u64, dirty: bool)
    ensures
        orderly(Stepped { raft: r, io }, r.confirm_append(io, from, last, dirty)),
{
    let s0 = Stepped { raft: r, io };
    let action = Persist::LogDurable {
        index: r.durable_index(),
        reply_to: Some(from),
        reply_term: r.term,
    };
    lemma_persist_state(r, io, action, Span::of_log(0, last));
    lemma_minor(s0, r.persist_state(io, action, Span::of_log(0, last)));
    lemma_send(
        r,
        io,
        from,
        RaftMsgView::AppendEntriesResp {
            term: r.term,
            success: true,
            match_index: least(r.durable_index(), last),
            conflict_index: NO_INDEX,
        },
    );
}

proof fn lemma_reject(
    r: RaftView,
    io: IoState,
    from: NodeId,
    prev_index: u64,
    prev_term: u64,
    dirty: bool,
)
    ensures
        orderly(Stepped { raft: r, io }, r.reject_append(io, from, prev_index, prev_term, dirty)),
{
    let s0 = Stepped { raft: r, io };
    let hint = r.conflict_hint(prev_index);
    let out = io.trace(
        Level::Debug,
        "raft"@,
        "rejecting append prev=("@ + decimal(prev_index as nat) + ","@
            + decimal(prev_term as nat) + "); my last=("@ + decimal(
            r.log.last_index() as nat,
        ) + ","@ + decimal(r.log.last_term() as nat) + ") hint="@
            + decimal(hint as nat),
    );
    let s1 = Stepped { raft: r, io: out };
    lemma_minor(s0, s1);
    lemma_persist_state(r, out, Persist::Quiet, Span::blank());
    lemma_minor(s1, r.persist_state(out, Persist::Quiet, Span::blank()));
    lemma_trans(s0, s1, r.persist_state(out, Persist::Quiet, Span::blank()));
    let reply = RaftMsgView::AppendEntriesResp {
        term: r.term,
        success: false,
        match_index: r.durable_index(),
        conflict_index: hint,
    };
    lemma_send(r, out, from, reply);
    lemma_trans(s0, s1, Stepped { raft: r, io: r.send(out, from, reply) });
}

proof fn lemma_take_append(
    r: RaftView,
    io: IoState,
    from: NodeId,
    prev_index: u64,
    prev_term: u64,
    entries: Seq<EntryView>,
    leader_commit: u64,
    dirty: bool,
)
    requires
        r.wf(),
        r.log.matches(prev_index, prev_term),
    ensures
        orderly(
            Stepped { raft: r, io },
            r.take_append(io, from, prev_index, prev_term, entries, leader_commit, dirty),
        ),
{
    reveal(RaftView::take_append);
    let s0 = Stepped { raft: r, io };
    let last = capped_u64(prev_index + entries.len());
    let (new, cut) = r.append_plan(prev_index, entries);
    match new {
        Some(i) => {
            lemma_plan(r, prev_index, prev_term, entries);
            lemma_plan_places(r, prev_index, entries);
            let floor = if i == 0 {
                prev_term
            } else {
                entries[i - 1].term
            };
            if !follow_on(prev_index, floor, entries, i) {
                let q = RaftView {
                    stats: RaftStats {
                        bad_messages: bump(r.stats.bad_messages),
                        ..r.stats
                    },
                    ..r
                };
                let s1 = Stepped { raft: q, io };
                lemma_minor(s0, s1);
                lemma_persist_state(q, io, Persist::Quiet, Span::blank());
                lemma_minor(s1, q.persist_state(io, Persist::Quiet, Span::blank()));
                lemma_trans(s0, s1, q.persist_state(io, Persist::Quiet, Span::blank()));
            } else {
                if i < entries.len() {
                    lemma_plan_storable(r, prev_index, prev_term, entries, i);
                } else {
                    lemma_truncate_wf(r.log, cut->Some_0);
                    assert(entries.skip(i) =~= Seq::empty());
                }
                lemma_store(r, io, from, prev_index, entries, i, cut, dirty);
                let s = r.store_entries(io, from, prev_index, entries, i, cut, dirty);
                lemma_follow_commit(s.raft, s.io, leader_commit, last);
                lemma_trans(s0, s, s.raft.follow_commit(s.io, leader_commit, last));
            }
        },
        None => {
            lemma_confirm(r, io, from, last, dirty);
            let s = r.confirm_append(io, from, last, dirty);
            lemma_follow_commit(s.raft, s.io, leader_commit, last);
            lemma_trans(s0, s, s.raft.follow_commit(s.io, leader_commit, last));
        },
    }
}

proof fn lemma_plan_places(r: RaftView, prev_index: u64, entries: Seq<EntryView>)
    ensures
        ({
            let (new, cut) = r.append_plan(prev_index, entries);
            &&& new matches Some(i) ==> 0 <= i <= entries.len()
            &&& new matches Some(i) ==> (i == entries.len() ==> cut is Some)
        }),
{
    lemma_first_new_places(r.log, prev_index, entries, 0);
}

proof fn lemma_first_new_places(log: LogView, prev_index: u64, entries: Seq<EntryView>, i: int)
    requires
        0 <= i <= entries.len(),
    ensures
        first_new(log, prev_index, entries, i).0 matches Some(k) ==> i <= k
            < entries.len(),
    decreases entries.len() - i,
{
    if i < entries.len() {
        lemma_first_new_places(log, prev_index, entries, i + 1);
    }
}

proof fn lemma_append_entries(
    r: RaftView,
    io: IoState,
    from: NodeId,
    term: u64,
    leader: NodeId,
    prev_index: u64,
    prev_term: u64,
    entries: Seq<EntryView>,
    leader_commit: u64,
)
    requires
        r.wf(),
    ensures
        orderly(
            Stepped { raft: r, io },
            r.on_append_entries(
                io,
                from,
                term,
                leader,
                prev_index,
                prev_term,
                entries,
                leader_commit,
            ),
        ),
{
    reveal(RaftView::on_append_entries);
    let s0 = Stepped { raft: r, io };
    if term < r.term {
        lemma_send(
            r,
            io,
            from,
            RaftMsgView::AppendEntriesResp {
                term: r.term,
                success: false,
                match_index: NO_INDEX,
                conflict_index: NO_INDEX,
            },
        );
    } else {
        let dirty = term > r.term;
        lemma_heed(r, io, term, leader);
        let s = r.heed_leader(io, term, leader);
        if s.raft.log.matches(prev_index, prev_term) {
            lemma_take_append(
                s.raft,
                s.io,
                from,
                prev_index,
                prev_term,
                entries,
                leader_commit,
                dirty,
            );
            lemma_trans(
                s0,
                s,
                s.raft.take_append(
                    s.io,
                    from,
                    prev_index,
                    prev_term,
                    entries,
                    leader_commit,
                    dirty,
                ),
            );
        } else {
            lemma_reject(s.raft, s.io, from, prev_index, prev_term, dirty);
            lemma_trans(
                s0,
                s,
                s.raft.reject_append(s.io, from, prev_index, prev_term, dirty),
            );
        }
    }
}

/// Whatever message arrives: the term does not go back, the vote of a term
/// stands, a commit is not taken back, nothing is claimed beyond the log, the
/// log knows where its records lie in the file, and every message sent is of a
/// term this node cannot forget.
pub proof fn law_messages_are_handled_orderly(
    r: RaftView,
    io: IoState,
    from: NodeId,
    msg: RaftMsgView,
)
    requires
        r.wf(),
    ensures
        orderly(Stepped { raft: r, io }, r.on_message(io, from, msg)),
{
    if !r.failed {
        match msg {
            RaftMsgView::RequestVote { term, candidate, last_index, last_term } => {
                lemma_request_vote(r, io, from, term, candidate, last_index, last_term);
            },
            RaftMsgView::RequestVoteResp { term, granted } => {
                lemma_vote_resp(r, io, from, term, granted);
            },
            RaftMsgView::AppendEntries {
                term,
                leader,
                prev_index,
                prev_term,
                entries,
                leader_commit,
            } => {
                lemma_append_entries(
                    r,
                    io,
                    from,
                    term,
                    leader,
                    prev_index,
                    prev_term,
                    entries,
                    leader_commit,
                );
            },
            RaftMsgView::AppendEntriesResp { term, success, match_index, conflict_index } => {
                lemma_append_resp(r, io, from, term, success, match_index, conflict_index);
            },
        }
    }
}

/// The same holds of timers.
pub proof fn law_timers_are_handled_orderly(r: RaftView, io: IoState, tag: TimerTag)
    ensures
        orderly(Stepped { raft: r, io }, r.on_timer(io, tag)),
{
    let s0 = Stepped { raft: r, io };
    let e = RaftView { election_timer: r.election_timer.unset(), ..r };
    let h = RaftView { heartbeat_timer: r.heartbeat_timer.unset(), ..r };
    lemma_minor(s0, Stepped { raft: e, io });
    lemma_minor(s0, Stepped { raft: h, io });
    lemma_candidate(e, io);
    lemma_trans(s0, Stepped { raft: e, io }, e.become_candidate(io));
    lemma_broadcast(h, io, h.peers().len() as int);
    let b = h.broadcast_append(io, h.peers().len() as int);
    lemma_trans(s0, Stepped { raft: h, io }, b);
    lemma_timer(b.raft, b.io);
    lemma_minor(b, b.raft.reset_heartbeat_timer(b.io));
    lemma_trans(s0, b, b.raft.reset_heartbeat_timer(b.io));
}

proof fn lemma_absorbed(synced: u64, parked: Seq<(u64, u64)>, limit: u64)
    requires
        synced <= limit,
        forall|i: int| 0 <= i < parked.len() ==> (#[trigger] parked[i]).1 <= limit,
    ensures
        absorbed(synced, parked).0 <= limit,
        absorbed(synced, parked).0 >= synced,
        forall|i: int|
            0 <= i < absorbed(synced, parked).1.len() ==> (#[trigger] absorbed(synced, parked).1[i]).1
                <= limit,
    decreases parked.len(),
{
    lemma_joining(parked, synced, 0);
    if let Some(i) = joining(parked, synced, 0) {
        let rest = parked.remove(i);
        assert(parked[i].1 <= limit);
        assert forall|k: int| 0 <= k < rest.len() implies (#[trigger] rest[k]).1 <= limit by {
            assert(rest[k] == parked[if k < i {
                k
            } else {
                k + 1
            }]);
        }
        lemma_absorbed(
            if parked[i].1 > synced {
                parked[i].1
            } else {
                synced
            },
            rest,
            limit,
        );
    }
}

proof fn lemma_settle(r: RaftView, io: IoState, action: Persist, span: Span)
    ensures
        orderly(Stepped { raft: r, io }, r.settle(io, action, span)),
{
    reveal(RaftView::settle);
    if claims_ok(r) {
        if let Persist::LogDurable { index, .. } = action {
            let last = least(index, r.log.last_index());
            let ranges = r.parked.push((span.first, last));
            assert forall|i: int| 0 <= i < ranges.len() implies (#[trigger] ranges[i]).1
                <= r.log.last_index() by {
                if i < r.parked.len() {
                    assert(ranges[i] == r.parked[i]);
                }
            }
            lemma_absorbed(r.synced_index, ranges, r.log.last_index());
        }
    }
}

proof fn lemma_send_all(r: RaftView, io: IoState, msg: RaftMsgView, n: int)
    ensures
        orderly(Stepped { raft: r, io }, Stepped { raft: r, io: r.send_all(io, msg, n) }),
    decreases n,
{
    if n > 0 {
        lemma_send_all(r, io, msg, n - 1);
        let mid = r.send_all(io, msg, n - 1);
        lemma_send(r, mid, r.peers()[n - 1], msg);
        lemma_trans(
            Stepped { raft: r, io },
            Stepped { raft: r, io: mid },
            Stepped { raft: r, io: r.send_all(io, msg, n) },
        );
    }
}

proof fn lemma_on_durable(r: RaftView, io: IoState, action: Persist, span: Span)
    ensures
        orderly(Stepped { raft: r, io }, r.on_durable(io, action, span)),
{
    reveal(RaftView::on_durable);
    let s0 = Stepped { raft: r, io };
    match action {
        Persist::Campaign { term } => {
            let msg = RaftMsgView::RequestVote {
                term,
                candidate: r.id,
                last_index: r.log.last_index(),
                last_term: r.log.last_term(),
            };
            let out = r.send_all(io, msg, r.peers().len() as int);
            lemma_send_all(r, io, msg, r.peers().len() as int);
            lemma_leader(r, out);
            lemma_trans(s0, Stepped { raft: r, io: out }, r.become_leader(out));
        },
        Persist::VoteReply { to, term, granted } => {
            lemma_send(r, io, to, RaftMsgView::RequestVoteResp { term, granted });
        },
        Persist::LogDurable { reply_to, reply_term, .. } => {
            let out = match reply_to {
                Some(to) => r.send(
                    io,
                    to,
                    RaftMsgView::AppendEntriesResp {
                        term: reply_term,
                        success: true,
                        match_index: least(r.durable_index(), span.agreed),
                        conflict_index: NO_INDEX,
                    },
                ),
                None => io,
            };
            if let Some(to) = reply_to {
                lemma_send(
                    r,
                    io,
                    to,
                    RaftMsgView::AppendEntriesResp {
                        term: reply_term,
                        success: true,
                        match_index: least(r.durable_index(), span.agreed),
                        conflict_index: NO_INDEX,
                    },
                );
            }
            lemma_maybe_commit(r, out);
            lemma_trans(s0, Stepped { raft: r, io: out }, r.maybe_commit(out));
        },
        Persist::Quiet => {},
    }
}

/// The same holds of storage completions.
pub proof fn law_completions_are_handled_orderly(r: RaftView, io: IoState, op: OpId, ok: bool)
    ensures
        orderly(Stepped { raft: r, io }, r.on_storage(io, op, ok)),
{
    let s0 = Stepped { raft: r, io };
    if !r.failed {
        let (persister, event, span) = r.persister.complete(op, ok);
        let q = RaftView { persister, ..r };
        let s1 = Stepped { raft: q, io };
        lemma_minor(s0, s1);
        match event {
            BatchEvent::Done(action) => {
                lemma_settle(q, io, action, span);
                let s2 = q.settle(io, action, span);
                lemma_trans(s0, s1, s2);
                lemma_on_durable(s2.raft, s2.io, action, span);
                lemma_trans(s0, s2, s2.raft.on_durable(s2.io, action, span));
            },
            BatchEvent::Failed => {
                lemma_minor(s0, r.on_storage(io, op, ok));
            },
            BatchEvent::NeedSync(id) => {
                lemma_minor(s0, r.on_storage(io, op, ok));
            },
            BatchEvent::Nothing => {},
        }
    }
}

/// The same holds of a client's command; and where it is taken, a leader's log
/// only grows, by exactly that command in the leader's term.
pub proof fn law_commands_are_handled_orderly(r: RaftView, io: IoState, cmd: CommandView)
    ensures
        orderly(Stepped { raft: r, io }, r.propose(io, cmd)),
        r.accepts_commands() ==> r.propose(io, cmd).raft.log == r.log.append(
            EntryView { term: r.term, index: (r.log.last_index() + 1) as u64, cmd },
        ),
        !r.accepts_commands() ==> r.propose(io, cmd) == (Stepped { raft: r, io }),
{
    if r.accepts_commands() {
        lemma_add_entry(r, io, cmd);
        let s = r.add_entry(io, cmd);
        lemma_broadcast(s.raft, s.io, s.raft.peers().len() as int);
        lemma_trans(
            Stepped { raft: r, io },
            s,
            s.raft.broadcast_append(s.io, s.raft.peers().len() as int),
        );
    }
}

/// Nothing that was claimed durable lies beyond the log.
pub proof fn law_durable_within_log(r: RaftView)
    requires
        claims_ok(r),
    ensures
        r.durable_index() <= r.log.last_index(),
{
}

/// A leader commits by counting replicas only at an entry of its own term, and
/// only what a majority of the members is known to hold durably.
pub proof fn law_commit_rule(r: RaftView, io: IoState)
    requires
        r.cfg.bug != InjectedBug::CommitAnyTerm,
    ensures
        ({
            let c = r.maybe_commit(io).raft.commit_index;
            c != r.commit_index ==> c > r.commit_index && r.log.term_at(c) == Some(r.term)
                && at_least(
                r.replicated(r.members.len() as int),
                c,
            ) >= r.quorum()
        }),
{
    reveal(RaftView::maybe_commit);
    lemma_reached(r.replicated(r.members.len() as int), r.quorum(), r.members.len() as int);
}

proof fn lemma_reached(values: Seq<u64>, q: nat, n: int)
    ensures
        reached_by(values, q, n) == 0
            || at_least(
            values,
            reached_by(values, q, n),
        ) >= q,
    decreases n,
{
    if n > 0 {
        lemma_reached(values, q, n - 1);
    }
}

/// A node comes back with exactly the durable term and vote, no entry of a
/// later term, and nothing claimed beyond its log.
pub proof fn law_recovery_is_orderly(
    file: Seq<u8>,
    id: NodeId,
    members: Seq<NodeId>,
    cfg: RaftConfig,
    seed: u64,
)
    ensures
        ({
            let r = RaftView::loaded(file, id, members, cfg, seed);
            &&& r.term == recovered_state(file).term
            &&& r.voted_for == recovered_state(file).voted_for
            &&& r.durable_term == r.term
            &&& claims_ok(r)
            &&& aligned(r.log)
            &&& r.commit_index == 0
            &&& r.log.entries.len() <= recovered(RaftView::log_bytes(file), 1).entries.len()
            &&& r.log.entries == recovered(RaftView::log_bytes(file), 1).entries.take(
                r.log.entries.len() as int,
            )
            &&& forall|i: int| 0 <= i < r.log.entries.len() ==> (#[trigger] r.log.entries[i]).term
                <= r.term
        }),
{
    let hs = recovered_state(file);
    let found = recovered(RaftView::log_bytes(file), 1);
    let kept = up_to_term(found.entries, hs.term);
    law_recovery_is_contiguous(RaftView::log_bytes(file), 1);
    lemma_kept(found.entries, hs.term);
    lemma_append_all_entries(LogView::empty(), kept);
    law_appending_keeps_offsets(LogView::empty(), kept);
    assert(LogView::empty().entries + kept =~= kept);
    assert forall|i: int| 0 <= i < kept.len() implies (#[trigger] kept[i]).term <= hs.term by {
        assert(kept[i] == found.entries[i]);
        assert(kept.last() == found.entries[kept.len() - 1]);
        assert(found.entries[i].term <= found.entries[kept.len() - 1].term);
    }
}

proof fn lemma_kept(es: Seq<EntryView>, term: u64)
    ensures
        ({
            let k = up_to_term(es, term);
            &&& k.len() <= es.len()
            &&& k == es.take(k.len() as int)
            &&& k.len() > 0 ==> k.last().term <= term
        }),
    decreases es.len(),
{
    if es.len() == 0 || es.last().term <= term {
        assert(es.take(es.len() as int) =~= es);
    } else {
        let d = es.drop_last();
        lemma_kept(d, term);
        let n = up_to_term(d, term).len() as int;
        assert(es.take(n) =~= d.take(n));
    }
}

/// Entries are handed to the state machine in log order, each once, and none
/// that is not committed.
pub proof fn law_applied_in_order(r: RaftView)
    requires
        r.wf(),
    ensures
        r.take_applied().last_applied >= r.last_applied,
        r.take_applied().last_applied == r.last_applied + r.applicable().len(),
        r.applicable().len() > 0 ==> r.take_applied().last_applied <= r.commit_index,
        forall|i: int|
            0 <= i < r.applicable().len() ==> (#[trigger] r.applicable()[i]).index == r.last_applied
                + 1 + i,
        r.take_applied().applicable().len() == 0,
{
    lemma_last_index(r.log);
    assert forall|i: int| 0 <= i < r.applicable().len() implies (#[trigger] r.applicable()[i]).index
        == r.last_applied + 1 + i by {
        assert(r.applicable()[i] == r.log.entries[r.last_applied + i]);
    }
}

} // verus!
