//! What a Raft node does when it should: it stands for election, grants votes
//! that are due, takes over when a majority wants it to, brings its followers
//! forward and commits what a majority holds.

use crate::count::bump;
use crate::kvstore::bug::InjectedBug;
use crate::kvstore::log::{CommandView, EntryView, NO_INDEX};
use crate::kvstore::persist::{lemma_batch_place, Persist, Span};
use crate::kvstore::raft_model::{
    all_at, members_but, next_seq, or_one, truth, RaftStats, RaftView, Role, Stepped, TIMER_ELECTION,
    TIMER_HEARTBEAT,
};
use crate::kvstore::recovery::{offset_of_slot, HardState};
use crate::kvstore::wire::{MessageView, RaftMsgView};
use crate::sim_io::effect::{Effect, IoState};
use crate::sim_io::storage::FILE_WAL;
use crate::simcore::rng::law_range_in_bounds;
use crate::simcore::trace::Level;
use crate::simcore::NodeId;
use crate::text::decimal;
use vstd::prelude::*;

verus! {

/// Whether a message to a node is among what was done since.
pub open spec fn said(since: Seq<Effect>, log: Seq<Effect>, to: NodeId, msg: RaftMsgView) -> bool {
    exists|k: int|
        since.len() <= k < log.len() && #[trigger] log[k] == (Effect::Send {
            to,
            payload: MessageView::Raft(msg).wire(),
        })
}

/// Whether a list of effects goes on from another.
pub open spec fn extends(since: Seq<Effect>, log: Seq<Effect>) -> bool {
    since.len() <= log.len() && forall|k: int| 0 <= k < since.len() ==> #[trigger] log[k] == since[k]
}

pub proof fn lemma_said(a: Seq<Effect>, b: Seq<Effect>, c: Seq<Effect>, to: NodeId, msg: RaftMsgView)
    requires
        said(a, b, to, msg),
        extends(b, c),
    ensures
        said(a, c, to, msg),
{
    let k = choose|k: int|
        a.len() <= k < b.len() && #[trigger] b[k] == (Effect::Send {
            to,
            payload: MessageView::Raft(msg).wire(),
        });
    assert(c[k] == b[k]);
}

/// Whether a write of the hard state is among what was done since.
pub open spec fn wrote_state(since: Seq<Effect>, log: Seq<Effect>, term: u64, vote: Option<NodeId>) -> bool {
    exists|k: int, seq: u64|
        since.len() <= k < log.len() && #[trigger] log[k] == (#[trigger] state_write(term, vote, seq))
}

/// The write of a hard state in its slot.
pub open spec fn state_write(term: u64, vote: Option<NodeId>, seq: u64) -> Effect {
    Effect::WriteAt {
        file: FILE_WAL,
        offset: offset_of_slot(seq) as usize,
        bytes: HardState { term, voted_for: vote, seq }.slot(),
    }
}

// ---- members ---------------------------------------------------------------

/// The peers of a node are the other members.
pub proof fn law_peers_are_the_other_members(members: Seq<NodeId>, id: NodeId, x: NodeId)
    ensures
        members_but(members, id).contains(x) <==> members.contains(x) && x != id,
        members_but(members, id).len() <= members.len(),
    decreases members.len(),
{
    if members.len() > 0 {
        let d = members.drop_last();
        law_peers_are_the_other_members(d, id, x);
        let (a, b) = (members_but(d, id), members_but(members, id));
        if a.contains(x) {
            let k = choose|k: int| 0 <= k < a.len() && a[k] == x;
            assert(b[k] == x);
        }
        if b.contains(x) {
            let k = choose|k: int| 0 <= k < b.len() && b[k] == x;
            if k < a.len() {
                assert(a[k] == x);
            } else {
                assert(members[members.len() - 1] == x);
            }
        }
        if d.contains(x) {
            let k = choose|k: int| 0 <= k < d.len() && d[k] == x;
            assert(members[k] == x);
        }
        if members.contains(x) && x != id {
            let k = choose|k: int| 0 <= k < members.len() && members[k] == x;
            if k < d.len() {
                assert(d[k] == x);
            } else {
                assert(b[b.len() - 1] == x);
            }
        }
    }
}

// ---- hard state ------------------------------------------------------------

/// A hard state is never written over the newest one that is durable: it goes
/// into the other slot, under a number no lower than the one that was next.
pub proof fn law_slots_alternate(state_seq: u64, durable_seq: u64)
    requires
        state_seq < u64::MAX,
    ensures
        next_seq(state_seq, durable_seq) % 2 != durable_seq % 2,
        next_seq(state_seq, durable_seq) == state_seq || next_seq(state_seq, durable_seq) == state_seq
            + 1,
{
}

proof fn lemma_state_written(r: RaftView, io: IoState, action: Persist, span: Span)
    ensures
        ({
            let s = r.persist_state(io, action, span);
            &&& wrote_state(io.log, s.io.log, r.term, r.voted_for)
            &&& extends(io.log, s.io.log)
        }),
{
    let s = r.persist_state(io, action, span);
    let seq = next_seq(r.state_seq, r.durable_seq);
    let k = io.log.len() as int;
    assert(s.io.log[k] == state_write(r.term, r.voted_for, seq));
}

// ---- elections -------------------------------------------------------------

/// A node whose election timer fires, and which does not lead, stands in the
/// next term: it votes for itself and for nobody else, writes that down before
/// it says anything, and waits again, for no less and no longer than it should.
pub proof fn law_silence_brings_an_election(r: RaftView, io: IoState)
    requires
        !r.failed,
        r.role != Role::Leader,
        r.election_timer.handle is Some,
        r.term < u64::MAX,
        r.cfg.election_timeout.0 <= r.cfg.election_timeout.1,
    ensures
        ({
            let s = r.on_timer(io, TIMER_ELECTION);
            &&& s.raft.role == Role::Candidate
            &&& s.raft.term == r.term + 1
            &&& s.raft.voted_for == Some(r.id)
            &&& s.raft.votes == set![r.id.0]
            &&& s.raft.leader is None
            &&& s.raft.log == r.log && s.raft.commit_index == r.commit_index
            &&& wrote_state(io.log, s.io.log, (r.term + 1) as u64, Some(r.id))
            &&& s.raft.election_timer.handle is Some
            &&& s.io.log.last() matches Effect::SetTimer { delay, tag } && tag == TIMER_ELECTION
                && r.cfg.election_timeout.0 <= delay <= r.cfg.election_timeout.1
            &&& forall|k: int| io.log.len() <= k < s.io.log.len() ==> !(#[trigger] s.io.log[k] is Send)
        }),
{
    reveal(RaftView::become_candidate);
    let s = r.on_timer(io, TIMER_ELECTION);
    let q = RaftView { election_timer: r.election_timer.unset(), ..r };
    law_range_in_bounds(r.rng, r.cfg.election_timeout.0, r.cfg.election_timeout.1);
    let term = (r.term + 1) as u64;
    let n = io.log.len() as int;
    let seq = next_seq(r.state_seq, r.durable_seq);
    assert(s.io.log[n + 2] == state_write(term, Some(r.id), seq));
    assert(s.raft.votes =~= set![r.id.0]);
}

/// A leader does not stand against itself, nor does anyone whose timer was
/// stopped.
pub proof fn law_leaders_do_not_stand(r: RaftView, io: IoState)
    requires
        r.role == Role::Leader || r.election_timer.handle is None,
    ensures
        r.on_timer(io, TIMER_ELECTION).raft.term == r.term,
        r.on_timer(io, TIMER_ELECTION).raft.role == r.role,
        r.on_timer(io, TIMER_ELECTION).io == io,
{
}

/// A vote that is due is given: to a candidate of a later term, or of this one
/// where no vote or the same was given, whose log is at least as recent. It is
/// written down, and answered only once it is. Any other request is refused.
pub proof fn law_votes_are_given_when_due(
    r: RaftView,
    io: IoState,
    from: NodeId,
    term: u64,
    candidate: NodeId,
    last_index: u64,
    last_term: u64,
)
    requires
        !r.failed,
        r.cfg.bug != InjectedBug::VoteBeforeSync,
    ensures
        ({
            let msg = RaftMsgView::RequestVote { term, candidate, last_index, last_term };
            let s = r.on_message(io, from, msg);
            let recent = last_term > r.log.last_term() || (last_term == r.log.last_term()
                && last_index >= r.log.last_index());
            let free = term > r.term || (term == r.term && (r.voted_for is None || r.voted_for == Some(
                candidate,
            )));
            let batch = s.raft.persister.batches.last();
            let answer = RaftMsgView::RequestVoteResp { term: s.raft.term, granted: free && recent };
            &&& free && recent ==> s.raft.voted_for == Some(candidate) && s.raft.term == term
            &&& term > r.term ==> s.raft.term == term && s.raft.role == Role::Follower
                && s.raft.leader is None && (!recent ==> s.raft.voted_for is None)
            &&& term <= r.term && !(free && recent) ==> s.raft.voted_for == r.voted_for
                && s.raft.term == r.term && s.raft.role == r.role
            &&& term > r.term || (free && recent && r.voted_for is None) ==> wrote_state(
                io.log,
                s.io.log,
                s.raft.term,
                s.raft.voted_for,
            ) && s.raft.persister.batches.len() == r.persister.batches.len() + 1 && batch.action
                == (Persist::VoteReply { to: from, term: s.raft.term, granted: free && recent })
            &&& term <= r.term && !(free && recent && r.voted_for is None) && r.term <= r.durable_term
                ==> said(io.log, s.io.log, from, answer)
            &&& s.raft.log == r.log && s.raft.commit_index == r.commit_index
        }),
{
    reveal(RaftView::on_request_vote);
    reveal(RaftView::step_down);
    let msg = RaftMsgView::RequestVote { term, candidate, last_index, last_term };
    let s = r.on_message(io, from, msg);
    let log = s.io.log;
    let n = log.len() - 1;
    if term < r.term {
        if r.term <= r.durable_term {
            assert(log[n] == (Effect::Send {
                to: from,
                payload: MessageView::Raft(
                    RaftMsgView::RequestVoteResp { term: r.term, granted: false },
                ).wire(),
            }));
        }
    } else {
        let newer = term > r.term;
        let d = if newer {
            r.step_down(io, term)
        } else {
            Stepped { raft: r, io }
        };
        let granted = (d.raft.voted_for is None || d.raft.voted_for == Some(candidate))
            && d.raft.log.is_up_to_date(last_index, last_term);
        let t = if granted {
            RaftView { voted_for: Some(candidate), ..d.raft }.reset_election_timer(d.io)
        } else {
            d
        };
        if newer || (granted && d.raft.voted_for != Some(candidate)) {
            let seq = next_seq(t.raft.state_seq, t.raft.durable_seq);
            assert(log[n] == state_write(t.raft.term, t.raft.voted_for, seq));
            assert(n >= io.log.len());
            assert(t.raft.persister == r.persister);
            let out = t.io.trace(
                Level::Debug,
                "raft"@,
                "vote request from "@ + candidate.label() + " term="@ + decimal(term as nat)
                    + " granted="@ + truth(granted) + " (up_to_date="@ + truth(
                    d.raft.log.is_up_to_date(last_index, last_term),
                ) + ", free="@ + truth(
                    d.raft.voted_for is None || d.raft.voted_for == Some(candidate),
                ) + ")"@,
            );
            lemma_batches(t.raft, out, Persist::VoteReply { to: from, term: t.raft.term, granted });
        } else if r.term <= r.durable_term {
            assert(log[n] == (Effect::Send {
                to: from,
                payload: MessageView::Raft(
                    RaftMsgView::RequestVoteResp { term: r.term, granted },
                ).wire(),
            }));
        }
    }
}

proof fn lemma_batches(r: RaftView, io: IoState, action: Persist)
    ensures
        ({
            let bs = r.persist_state(io, action, Span::blank()).raft.persister.batches;
            bs.len() == r.persister.batches.len() + 1 && bs.last().action == action
        }),
{
    let id = r.persister.fresh();
    let p = r.persister.start(action, Span::blank());
    let q = p.note_state(id, r.term, next_seq(r.state_seq, r.durable_seq));
    assert(p.batches[p.batches.len() - 1].id == id);
    lemma_batch_place(p.batches, id, 0);
    assert(q.batches[q.batches.len() - 1].id == id);
    lemma_batch_place(q.batches, id, 0);
}

/// What a vote's batch is for, it says once it is durable: the answer that was
/// decided then, to who asked.
pub proof fn law_votes_are_answered(r: RaftView, io: IoState, to: NodeId, term: u64, granted: bool, span: Span)
    requires
        term <= r.durable_term,
    ensures
        said(
            io.log,
            r.on_durable(io, Persist::VoteReply { to, term, granted }, span).io.log,
            to,
            RaftMsgView::RequestVoteResp { term, granted },
        ),
        r.on_durable(io, Persist::VoteReply { to, term, granted }, span).raft == r,
{
    reveal(RaftView::on_durable);
    let out = r.on_durable(io, Persist::VoteReply { to, term, granted }, span).io.log;
    assert(out[io.log.len() as int] == (Effect::Send {
        to,
        payload: MessageView::Raft(RaftMsgView::RequestVoteResp { term, granted }).wire(),
    }));
}

proof fn lemma_send_all(r: RaftView, io: IoState, msg: RaftMsgView, n: int, i: int)
    requires
        0 <= i < n <= r.peers().len(),
        msg.term() <= r.durable_term,
    ensures
        said(io.log, r.send_all(io, msg, n).log, r.peers()[i], msg),
        extends(io.log, r.send_all(io, msg, n).log),
    decreases n,
{
    let before = r.send_all(io, msg, n - 1);
    let after = r.send_all(io, msg, n);
    if i < n - 1 {
        lemma_send_all(r, io, msg, n - 1, i);
        lemma_said(io.log, before.log, after.log, r.peers()[i], msg);
    } else {
        if n > 1 {
            lemma_send_all(r, io, msg, n - 1, 0);
        }
        assert(after.log[before.log.len() as int] == (Effect::Send {
            to: r.peers()[i],
            payload: MessageView::Raft(msg).wire(),
        }));
    }
}

/// A candidate whose candidacy is durable asks every other member for its vote,
/// in its term, with where its log ends.
pub proof fn law_candidates_ask_everyone(r: RaftView, io: IoState, span: Span, i: int)
    requires
        r.role == Role::Candidate,
        r.term <= r.durable_term,
        r.votes.len() < r.quorum(),
        0 <= i < r.peers().len(),
    ensures
        said(
            io.log,
            r.on_durable(io, Persist::Campaign { term: r.term }, span).io.log,
            r.peers()[i],
            RaftMsgView::RequestVote {
                term: r.term,
                candidate: r.id,
                last_index: r.log.last_index(),
                last_term: r.log.last_term(),
            },
        ),
{
    reveal(RaftView::on_durable);
    let msg = RaftMsgView::RequestVote {
        term: r.term,
        candidate: r.id,
        last_index: r.log.last_index(),
        last_term: r.log.last_term(),
    };
    lemma_send_all(r, io, msg, r.peers().len() as int, i);
}

proof fn lemma_all_at(nodes: Seq<NodeId>, v: u64, x: NodeId)
    ensures
        nodes.contains(x) ==> all_at(Map::empty(), nodes, v).contains_key(x.0) && all_at(
            Map::empty(),
            nodes,
            v,
        )[x.0] == v,
        !nodes.contains(x) ==> !all_at(Map::empty(), nodes, v).contains_key(x.0),
    decreases nodes.len(),
{
    if nodes.len() > 0 {
        let d = nodes.drop_last();
        lemma_all_at(d, v, x);
        if nodes.contains(x) {
            let k = choose|k: int| 0 <= k < nodes.len() && nodes[k] == x;
            if k < d.len() {
                assert(d[k] == x);
            }
        }
        if d.contains(x) {
            let k = choose|k: int| 0 <= k < d.len() && d[k] == x;
            assert(nodes[k] == x);
        }
        assert(nodes[nodes.len() - 1] == nodes.last());
    }
}

/// What a broadcast leaves alone: everything but a count.
pub open spec fn same_but_stats(a: RaftView, b: RaftView) -> bool {
    b == (RaftView { stats: b.stats, ..a })
}

pub proof fn lemma_broadcast(r: RaftView, io: IoState, n: int, i: int)
    requires
        0 <= n <= r.peers().len(),
        0 <= i,
    ensures
        ({
            let s = r.broadcast_append(io, n);
            &&& same_but_stats(r, s.raft)
            &&& extends(io.log, s.io.log)
            &&& i < n && r.term <= r.durable_term && r.log.term_at(
                (or_one(r.next_index, r.peers()[i].0) - 1) as u64,
            ) is Some ==> said(io.log, s.io.log, r.peers()[i], r.append_for(r.peers()[i]))
        }),
    decreases n,
{
    if n > 0 {
        lemma_broadcast(r, io, n - 1, i);
        let s = r.broadcast_append(io, n - 1);
        let t = r.broadcast_append(io, n);
        let to = r.peers()[n - 1];
        assert(s.raft.append_for(to) == r.append_for(to));
        assert(extends(s.io.log, t.io.log));
        if i < n - 1 {
            if said(io.log, s.io.log, r.peers()[i], r.append_for(r.peers()[i])) {
                lemma_said(io.log, s.io.log, t.io.log, r.peers()[i], r.append_for(r.peers()[i]));
            }
        } else if i == n - 1 && r.term <= r.durable_term && r.log.term_at(
            (or_one(r.next_index, to.0) - 1) as u64,
        ) is Some {
            assert(t.io.log[s.io.log.len() as int] == (Effect::Send {
                to,
                payload: MessageView::Raft(r.append_for(to)).wire(),
            }));
        }
    }
}

/// The vote that makes a majority makes a leader: its log gains one entry of its
/// own term that does nothing, it assumes of every peer that it holds what the
/// log held before and has confirmed nothing yet, it stops waiting for a leader,
/// and tells everyone.
pub proof fn law_a_majority_makes_a_leader(r: RaftView, io: IoState, from: NodeId, peer: NodeId)
    requires
        r.wf(),
        !r.failed,
        r.role == Role::Candidate,
        r.votes.insert(from.0).len() >= r.quorum(),
        r.has_room(),
        r.members.contains(peer),
        peer != r.id,
    ensures
        ({
            let s = r.on_message(
                io,
                from,
                RaftMsgView::RequestVoteResp { term: r.term, granted: true },
            );
            let noop = EntryView {
                term: r.term,
                index: (r.log.last_index() + 1) as u64,
                cmd: CommandView::noop(),
            };
            &&& s.raft.role == Role::Leader
            &&& s.raft.leader == Some(r.id)
            &&& s.raft.term == r.term
            &&& s.raft.votes == r.votes.insert(from.0)
            &&& s.raft.log.entries == r.log.entries.push(noop)
            &&& s.raft.next_index.contains_key(peer.0) && s.raft.next_index[peer.0]
                == r.log.last_index() + 1
            &&& s.raft.match_index.contains_key(peer.0) && s.raft.match_index[peer.0] == 0
            &&& s.raft.election_timer.handle is None
            &&& s.raft.heartbeat_timer.handle is Some
            &&& s.io.log.last() == (Effect::SetTimer {
                delay: r.cfg.heartbeat_interval,
                tag: TIMER_HEARTBEAT,
            })
            &&& s.raft.commit_index == r.commit_index
        }),
{
    reveal(RaftView::on_vote_resp);
    reveal(RaftView::become_leader);
    let v = RaftView { votes: r.votes.insert(from.0), ..r };
    lemma_leading(v, io, peer);
}

proof fn lemma_leading(v: RaftView, io: IoState, peer: NodeId)
    requires
        v.wf(),
        v.has_room(),
        v.members.contains(peer),
        peer != v.id,
    ensures
        ({
            let s = v.become_leader(io);
            let noop = EntryView {
                term: v.term,
                index: (v.log.last_index() + 1) as u64,
                cmd: CommandView::noop(),
            };
            &&& s.raft.role == Role::Leader
            &&& s.raft.leader == Some(v.id)
            &&& s.raft.term == v.term
            &&& s.raft.votes == v.votes
            &&& s.raft.log.entries == v.log.entries.push(noop)
            &&& s.raft.next_index.contains_key(peer.0) && s.raft.next_index[peer.0]
                == v.log.last_index() + 1
            &&& s.raft.match_index.contains_key(peer.0) && s.raft.match_index[peer.0] == 0
            &&& s.raft.election_timer.handle is None
            &&& s.raft.heartbeat_timer.handle is Some
            &&& s.io.log.last() == (Effect::SetTimer {
                delay: v.cfg.heartbeat_interval,
                tag: TIMER_HEARTBEAT,
            })
            &&& s.raft.commit_index == v.commit_index
        }),
{
    reveal(RaftView::become_leader);
    law_peers_are_the_other_members(v.members, v.id, peer);
    let next = (v.log.last_index() + 1) as u64;
    lemma_all_at(v.peers(), next, peer);
    lemma_all_at(v.peers(), NO_INDEX, peer);
    let q = RaftView {
        role: Role::Leader,
        leader: Some(v.id),
        stats: RaftStats { elections_won: bump(v.stats.elections_won), ..v.stats },
        next_index: all_at(Map::empty(), v.peers(), next),
        match_index: all_at(Map::empty(), v.peers(), NO_INDEX),
        ..v
    };
    let out = io.observe("leader"@, seq![v.term, v.log.last_index()]).trace(
        Level::Info,
        "raft"@,
        "elected leader for term "@ + decimal(v.term as nat) + " with "@
            + decimal(v.votes.len()) + " votes"@,
    );
    let s = q.add_entry(out, CommandView::noop());
    let quiet = RaftView { election_timer: s.raft.election_timer.unset(), ..s.raft };
    lemma_broadcast(
        quiet,
        s.raft.election_timer.disarmed(s.io),
        quiet.peers().len() as int,
        0,
    );
}

/// Short of a majority a vote is noted and nothing else happens; a refusal, or a
/// vote of another term, is not noted.
pub proof fn law_votes_are_counted(r: RaftView, io: IoState, from: NodeId, term: u64, granted: bool)
    requires
        !r.failed,
        term <= r.term,
        r.votes.insert(from.0).len() < r.quorum(),
    ensures
        ({
            let s = r.on_message(io, from, RaftMsgView::RequestVoteResp { term, granted });
            let counts = r.role == Role::Candidate && term == r.term && granted;
            &&& s.io == io
            &&& s.raft.role == r.role
            &&& s.raft.votes == if counts {
                r.votes.insert(from.0)
            } else {
                r.votes
            }
            &&& s.raft.log == r.log && s.raft.term == r.term && s.raft.voted_for == r.voted_for
        }),
{
    reveal(RaftView::on_vote_resp);
}

/// Whoever hears of a later term follows it at once, without a leader and
/// without a vote, and writes that down.
pub proof fn law_later_terms_are_followed(r: RaftView, io: IoState, from: NodeId, term: u64, granted: bool)
    requires
        !r.failed,
        term > r.term,
    ensures
        ({
            let s = r.on_message(io, from, RaftMsgView::RequestVoteResp { term, granted });
            &&& s.raft.term == term
            &&& s.raft.role == Role::Follower
            &&& s.raft.voted_for is None
            &&& s.raft.leader is None
            &&& s.raft.votes == Set::<u32>::empty()
            &&& s.raft.heartbeat_timer.handle is None
            &&& s.raft.election_timer.handle is Some
            &&& wrote_state(io.log, s.io.log, term, None)
            &&& s.raft.log == r.log
        }),
{
    reveal(RaftView::on_vote_resp);
    reveal(RaftView::step_down);
    let d = r.step_down(io, term);
    lemma_state_written(d.raft, d.io, Persist::Quiet, Span::blank());
    let s = r.on_message(io, from, RaftMsgView::RequestVoteResp { term, granted });
    let k = s.io.log.len() - 1;
    let seq = next_seq(d.raft.state_seq, d.raft.durable_seq);
    assert(s.io.log[k] == state_write(term, None, seq));
}

} // verus!
