//! How a node comes to lead, whom it votes for, and what it acknowledges.

use crate::count::{bump, capped_u64};
use crate::kvstore::bug::InjectedBug;
use crate::kvstore::log::{CommandView, EntryView, NO_INDEX};
use crate::kvstore::persist::{BatchEvent, Persist, Span};
use crate::kvstore::raft_laws::silent;
use crate::kvstore::raft_model::{all_at, least, RaftStats, RaftView, Role};
use crate::kvstore::wire::{MessageView, RaftMsgView};
use crate::sim_io::clock::TimerTag;
use crate::sim_io::effect::{Effect, IoState};
use crate::simcore::disk::OpId;
use crate::simcore::NodeId;
use crate::simcore::trace::Level;
use crate::text::decimal;
use vstd::prelude::*;

verus! {

/// A vote is given only once in a term, only to who asked for it, and only to a
/// candidate whose log is at least as complete as one's own.
pub proof fn law_votes_need_a_complete_log(
    r: RaftView,
    io: IoState,
    from: NodeId,
    term: u64,
    candidate: NodeId,
    last_index: u64,
    last_term: u64,
)
    ensures
        ({
            let s = r.on_request_vote(io, from, term, candidate, last_index, last_term).raft;
            s.voted_for is Some && s.voted_for != r.voted_for ==> {
                &&& s.voted_for == Some(candidate)
                &&& s.term == term
                &&& r.log.is_up_to_date(last_index, last_term)
                &&& (term > r.term || r.voted_for is None)
            }
        }),
{
    reveal(RaftView::on_request_vote);
    reveal(RaftView::step_down);
}

proof fn lemma_broadcast_keeps(r: RaftView, io: IoState, n: int)
    ensures
        r.broadcast_append(io, n).raft.votes == r.votes,
        r.broadcast_append(io, n).raft.role == r.role,
        r.broadcast_append(io, n).raft.term == r.term,
        r.broadcast_append(io, n).raft.members == r.members,
    decreases n,
{
    if n > 0 {
        lemma_broadcast_keeps(r, io, n - 1);
    }
}

proof fn lemma_leader_keeps(r: RaftView, io: IoState)
    ensures
        r.become_leader(io).raft.votes == r.votes,
        r.become_leader(io).raft.term == r.term,
        r.become_leader(io).raft.members == r.members,
{
    reveal(RaftView::become_leader);
    if r.has_room() {
        let next = (r.log.last_index() + 1) as u64;
        let q = RaftView {
            role: Role::Leader,
            leader: Some(r.id),
            stats: RaftStats {
                elections_won: bump(r.stats.elections_won),
                ..r.stats
            },
            next_index: all_at(Map::empty(), r.peers(), next),
            match_index: all_at(Map::empty(), r.peers(), NO_INDEX),
            ..r
        };
        let out = io.observe("leader"@, seq![r.term, r.log.last_index()]).trace(
            Level::Info,
            "raft"@,
            "elected leader for term "@ + decimal(r.term as nat) + " with "@
                + decimal(r.votes.len()) + " votes"@,
        );
        let s = q.add_entry(out, CommandView::noop());
        let quiet = RaftView { election_timer: s.raft.election_timer.unset(), ..s.raft };
        lemma_broadcast_keeps(
            quiet,
            s.raft.election_timer.disarmed(s.io),
            quiet.peers().len() as int,
        );
    }
}

/// Whether a step made a node the leader, it did so with the votes of a
/// majority and in the term it already stood in.
pub open spec fn duly_elected(r: RaftView, s: RaftView) -> bool {
    r.role != Role::Leader && s.role == Role::Leader ==> {
        &&& s.votes.len() >= r.quorum()
        &&& s.term == r.term
        &&& r.role == Role::Candidate
    }
}

proof fn lemma_take_append_role(
    r: RaftView,
    io: IoState,
    from: NodeId,
    prev_index: u64,
    prev_term: u64,
    entries: Seq<EntryView>,
    leader_commit: u64,
    dirty: bool,
)
    ensures
        r.take_append(io, from, prev_index, prev_term, entries, leader_commit, dirty).raft.role
            == r.role,
{
    reveal(RaftView::take_append);
    reveal(RaftView::store_entries);
}

/// Nobody leads without the votes of a majority.
pub proof fn law_leaders_have_a_majority(r: RaftView, io: IoState, from: NodeId, msg: RaftMsgView)
    ensures
        duly_elected(r, r.on_message(io, from, msg).raft),
{
    match msg {
        RaftMsgView::RequestVote { term, candidate, last_index, last_term } => {
            reveal(RaftView::on_request_vote);
            reveal(RaftView::step_down);
        },
        RaftMsgView::RequestVoteResp { term, granted } => {
            reveal(RaftView::on_vote_resp);
            reveal(RaftView::step_down);
            let q = RaftView { votes: r.votes.insert(from.0), ..r };
            lemma_leader_keeps(q, io);
        },
        RaftMsgView::AppendEntries { term, leader, prev_index, prev_term, entries, leader_commit } => {
            reveal(RaftView::on_append_entries);
            let s = r.heed_leader(io, term, leader);
            assert(term >= r.term ==> s.raft.role == Role::Follower) by {
                reveal(RaftView::heed_leader);
                reveal(RaftView::step_down);
            }
            lemma_take_append_role(
                s.raft,
                s.io,
                from,
                prev_index,
                prev_term,
                entries,
                leader_commit,
                term > r.term,
            );
        },
        RaftMsgView::AppendEntriesResp { term, success, match_index, conflict_index } => {
            reveal(RaftView::on_append_resp);
            reveal(RaftView::step_down);
            reveal(RaftView::maybe_commit);
        },
    }
}

/// The same holds of storage completions: a cluster of one elects itself once
/// its own vote is durable.
pub proof fn law_leaders_have_a_majority_on_storage(r: RaftView, io: IoState, op: OpId, ok: bool)
    ensures
        duly_elected(r, r.on_storage(io, op, ok).raft),
{
    if !r.failed {
        let (persister, event, span) = r.persister.complete(op, ok);
        let q = RaftView { persister, ..r };
        if let BatchEvent::Done(action) = event {
            reveal(RaftView::settle);
            reveal(RaftView::on_durable);
            reveal(RaftView::maybe_commit);
            let s = q.settle(io, action, span);
            if let Persist::Campaign { term } = action {
                let msg = RaftMsgView::RequestVote {
                    term,
                    candidate: s.raft.id,
                    last_index: s.raft.log.last_index(),
                    last_term: s.raft.log.last_term(),
                };
                lemma_leader_keeps(
                    s.raft,
                    s.raft.send_all(s.io, msg, s.raft.peers().len() as int),
                );
            }
        }
    }
}

/// And of timers, which elect nobody.
pub proof fn law_timers_elect_nobody(r: RaftView, io: IoState, tag: TimerTag)
    ensures
        r.role != Role::Leader ==> r.on_timer(io, tag).raft.role != Role::Leader,
{
    reveal(RaftView::become_candidate);
}

// ---- acknowledgements --------------------------------------------------------

/// Whether a payload is a Raft message that acknowledges no more of the log
/// than `cap`.
pub open spec fn acks_at_most(payload: Seq<u8>, cap: u64) -> bool {
    exists|m: RaftMsgView|
        {
            &&& #[trigger] MessageView::Raft(m).wire() == payload
            &&& match m {
                RaftMsgView::AppendEntriesResp { success, match_index, .. } => success
                    ==> match_index <= cap,
                _ => true,
            }
        }
}

/// Whether `b` lists what `a` does and then only effects whose messages
/// acknowledge no more than `cap`.
pub open spec fn acks_only(a: Seq<Effect>, b: Seq<Effect>, cap: u64) -> bool {
    &&& a.len() <= b.len()
    &&& forall|i: int| 0 <= i < a.len() ==> #[trigger] b[i] == a[i]
    &&& forall|i: int|
        a.len() <= i < b.len() ==> ((#[trigger] b[i]) matches Effect::Send { payload, .. }
            ==> acks_at_most(payload, cap))
}

pub proof fn lemma_quiet_then(a: Seq<Effect>, b: Seq<Effect>, c: Seq<Effect>, cap: u64)
    requires
        silent(a, b),
        acks_only(b, c, cap),
    ensures
        acks_only(a, c, cap),
{
    assert forall|i: int| 0 <= i < a.len() implies #[trigger] c[i] == a[i] by {
        assert(b[i] == a[i]);
    }
    assert forall|i: int| a.len() <= i < c.len() && ((#[trigger] c[i]) is Send) implies acks_at_most(
        c[i]->payload,
        cap,
    ) by {
        if i < b.len() {
            assert(c[i] == b[i]);
        }
    }
}

proof fn lemma_reply(r: RaftView, io: IoState, to: NodeId, msg: RaftMsgView, cap: u64)
    requires
        match msg {
            RaftMsgView::AppendEntriesResp { success, match_index, .. } => success ==> match_index
                <= cap,
            _ => true,
        },
    ensures
        acks_only(io.log, r.send(io, to, msg).log, cap),
{
    assert(MessageView::Raft(msg).wire() == MessageView::Raft(msg).wire());
    assert(acks_at_most(MessageView::Raft(msg).wire(), cap));
}

proof fn lemma_store_silent(
    r: RaftView,
    io: IoState,
    from: NodeId,
    prev_index: u64,
    entries: Seq<EntryView>,
    i: int,
    cut: Option<u64>,
    dirty: bool,
)
    requires
        r.cfg.bug != InjectedBug::AckBeforeSync,
    ensures
        silent(io.log, r.store_entries(io, from, prev_index, entries, i, cut, dirty).io.log),
{
    reveal(RaftView::store_entries);
}

proof fn lemma_heed_silent(r: RaftView, io: IoState, term: u64, leader: NodeId)
    ensures
        silent(io.log, r.heed_leader(io, term, leader).io.log),
{
    reveal(RaftView::heed_leader);
    reveal(RaftView::step_down);
}

proof fn lemma_take_append_acks(
    r: RaftView,
    io: IoState,
    from: NodeId,
    prev_index: u64,
    prev_term: u64,
    entries: Seq<EntryView>,
    leader_commit: u64,
    dirty: bool,
)
    requires
        r.cfg.bug != InjectedBug::AckBeforeSync,
    ensures
        acks_only(
            io.log,
            r.take_append(io, from, prev_index, prev_term, entries, leader_commit, dirty).io.log,
            least(r.durable_index(), capped_u64(prev_index + entries.len())),
        ),
{
    reveal(RaftView::take_append);
    let last = capped_u64(prev_index + entries.len());
    let cap = least(r.durable_index(), last);
    let (new, cut) = r.append_plan(prev_index, entries);
    match new {
        Some(i) => {
            lemma_store_silent(r, io, from, prev_index, entries, i, cut, dirty);
        },
        None => {
            lemma_reply(
                r,
                io,
                from,
                RaftMsgView::AppendEntriesResp {
                    term: r.term,
                    success: true,
                    match_index: cap,
                    conflict_index: NO_INDEX,
                },
                cap,
            );
        },
    }
}

/// A follower never acknowledges at once more of its log than the message it
/// answers has proved to agree, nor more than is durable.
pub proof fn law_acks_cover_what_was_compared(
    r: RaftView,
    io: IoState,
    from: NodeId,
    term: u64,
    leader: NodeId,
    prev_index: u64,
    prev_term: u64,
    entries: Seq<EntryView>,
    leader_commit: u64,
)
    requires
        r.cfg.bug != InjectedBug::AckBeforeSync,
    ensures
        acks_only(
            io.log,
            r.on_append_entries(
                io,
                from,
                term,
                leader,
                prev_index,
                prev_term,
                entries,
                leader_commit,
            ).io.log,
            least(r.durable_index(), capped_u64(prev_index + entries.len())),
        ),
{
    reveal(RaftView::on_append_entries);
    let cap = least(r.durable_index(), capped_u64(prev_index + entries.len()));
    if term < r.term {
        lemma_reply(
            r,
            io,
            from,
            RaftMsgView::AppendEntriesResp {
                term: r.term,
                success: false,
                match_index: NO_INDEX,
                conflict_index: NO_INDEX,
            },
            cap,
        );
    } else {
        let dirty = term > r.term;
        let s = r.heed_leader(io, term, leader);
        lemma_heed_silent(r, io, term, leader);
        assert(s.raft.durable_index() == r.durable_index() && s.raft.cfg == r.cfg) by {
            reveal(RaftView::heed_leader);
            reveal(RaftView::step_down);
        }
        if s.raft.log.matches(prev_index, prev_term) {
            lemma_take_append_acks(
                s.raft,
                s.io,
                from,
                prev_index,
                prev_term,
                entries,
                leader_commit,
                dirty,
            );
        } else {
            let hint = s.raft.conflict_hint(prev_index);
            let out = s.io.trace(
                Level::Debug,
                "raft"@,
                "rejecting append prev=("@ + decimal(prev_index as nat) + ","@
                    + decimal(prev_term as nat) + "); my last=("@
                    + decimal(s.raft.log.last_index() as nat) + ","@
                    + decimal(s.raft.log.last_term() as nat) + ") hint="@
                    + decimal(hint as nat),
            );
            let msg = RaftMsgView::AppendEntriesResp {
                term: s.raft.term,
                success: false,
                match_index: s.raft.durable_index(),
                conflict_index: hint,
            };
            lemma_reply(s.raft, out, from, msg, cap);
            assert(silent(s.io.log, out.log));
            lemma_quiet_then(s.io.log, out.log, s.raft.send(out, from, msg).log, cap);
        }
        lemma_quiet_then(
            io.log,
            s.io.log,
            r.on_append_entries(
                io,
                from,
                term,
                leader,
                prev_index,
                prev_term,
                entries,
                leader_commit,
            ).io.log,
            cap,
        );
    }
}

/// An acknowledgement that waited for the disk is capped in the same way: by
/// what is durable, and by what the message that caused it had proved.
pub proof fn law_late_acks_cover_what_was_compared(
    r: RaftView,
    io: IoState,
    reply_to: Option<NodeId>,
    reply_term: u64,
    index: u64,
    span: Span,
)
    ensures
        acks_only(
            io.log,
            r.on_durable(io, Persist::LogDurable { index, reply_to, reply_term }, span).io.log,
            least(r.durable_index(), span.agreed),
        ),
{
    reveal(RaftView::on_durable);
    reveal(RaftView::maybe_commit);
    if let Some(to) = reply_to {
        lemma_reply(
            r,
            io,
            to,
            RaftMsgView::AppendEntriesResp {
                term: reply_term,
                success: true,
                match_index: least(r.durable_index(), span.agreed),
                conflict_index: NO_INDEX,
            },
            least(r.durable_index(), span.agreed),
        );
    }
}

} // verus!
