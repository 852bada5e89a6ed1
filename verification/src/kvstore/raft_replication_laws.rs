//! How a Raft node brings others forward and is brought forward: what it sends,
//! what it stores, where it backs up to and what it commits.

use crate::count::capped_u64;
use crate::kvstore::bug::InjectedBug;
use crate::kvstore::log::{capped, lemma_last_index, lemma_truncate_wf, CommandView, EntryView, LogView};
use crate::kvstore::persist::{lemma_batch_place, Persist, Span};
use crate::kvstore::raft::{lemma_append_all_entries, lemma_plan_storable, lemma_storable_end};
use crate::kvstore::raft_action_laws::{extends, lemma_broadcast, lemma_said, said};
use crate::kvstore::raft_model::{
    at_least, first_new, follow_on, least, or_one, or_zero, parked_below, reached_by, run_start, up_to_term,
    RaftConfig, RaftStats, RaftView, Role, LOG_REGION, TIMER_HEARTBEAT,
};
use crate::kvstore::recovery::{law_recovery_is_contiguous, recovered, recovered_state};
use crate::kvstore::wire::{MessageView, RaftMsgView};
use crate::sim_io::effect::{Effect, IoState};
use crate::sim_io::storage::FILE_WAL;
use crate::simcore::NodeId;
use vstd::prelude::*;

verus! {

// ---- what is sent ------------------------------------------------------------

/// What an append to a peer holds: the leader's term and commit index, the entry
/// before the next one the peer is thought to need, and the log from there on, as
/// much as fits a batch and no less.
pub proof fn law_appends_bring_the_next_entries(r: RaftView, to: NodeId)
    requires
        r.wf(),
        r.next_index.contains_key(to.0),
        1 <= r.next_index[to.0] <= r.log.last_index() + 1,
    ensures
        r.append_for(to) matches RaftMsgView::AppendEntries {
            term,
            leader,
            prev_index,
            prev_term,
            entries,
            leader_commit,
        } && {
            let next = r.next_index[to.0];
            let left = r.log.last_index() + 1 - next;
            &&& term == r.term && leader == r.id && leader_commit == r.commit_index
            &&& prev_index == next - 1
            &&& r.log.term_at(prev_index) == Some(prev_term)
            &&& entries.len() == if left < r.cfg.max_batch {
                left
            } else {
                r.cfg.max_batch as int
            }
            &&& forall|i: int|
                0 <= i < entries.len() ==> r.log.get((next + i) as u64) == Some(#[trigger] entries[i])
        },
{
    lemma_last_index(r.log);
    let next = r.next_index[to.0];
    let es = r.log.slice_from(next, r.cfg.max_batch as nat);
    assert forall|i: int| 0 <= i < es.len() implies r.log.get((next + i) as u64) == Some(
        #[trigger] es[i],
    ) by {
        assert(es[i] == r.log.entries[next - 1 + i]);
    }
}

/// A leader's heartbeat goes to every peer, and the next one is set.
pub proof fn law_heartbeats_go_to_everyone(r: RaftView, io: IoState, i: int)
    requires
        !r.failed,
        r.role == Role::Leader,
        r.heartbeat_timer.handle is Some,
        r.term <= r.durable_term,
        0 <= i < r.peers().len(),
        r.log.term_at((or_one(r.next_index, r.peers()[i].0) - 1) as u64) is Some,
    ensures
        ({
            let s = r.on_timer(io, TIMER_HEARTBEAT);
            &&& said(io.log, s.io.log, r.peers()[i], r.append_for(r.peers()[i]))
            &&& s.raft.heartbeat_timer.handle is Some
            &&& s.io.log.last() == (Effect::SetTimer {
                delay: r.cfg.heartbeat_interval,
                tag: TIMER_HEARTBEAT,
            })
            &&& s.raft.term == r.term && s.raft.role == r.role && s.raft.log == r.log
        }),
{
    let q = RaftView { heartbeat_timer: r.heartbeat_timer.unset(), ..r };
    let n = q.peers().len() as int;
    lemma_broadcast(q, io, n, i);
    let t = q.broadcast_append(io, n);
    let s = r.on_timer(io, TIMER_HEARTBEAT);
    assert(q.append_for(q.peers()[i]) == r.append_for(r.peers()[i]));
    assert(extends(t.io.log, s.io.log));
    lemma_said(io.log, t.io.log, s.io.log, r.peers()[i], r.append_for(r.peers()[i]));
}

/// A command that is taken is sent to every peer at once.
pub proof fn law_commands_are_sent_on(
    r: RaftView,
    io: IoState,
    cmd: CommandView,
    i: int,
)
    requires
        r.wf(),
        r.accepts_commands(),
        r.term <= r.durable_term,
        0 <= i < r.peers().len(),
        r.log.term_at((or_one(r.next_index, r.peers()[i].0) - 1) as u64) is Some,
    ensures
        ({
            let s = r.propose(io, cmd);
            &&& s.raft.log.entries.last() == (EntryView {
                term: r.term,
                index: (r.log.last_index() + 1) as u64,
                cmd,
            })
            &&& s.raft.log.entries.drop_last() == r.log.entries
            &&& exists|m: RaftMsgView| #[trigger]
                said(io.log, s.io.log, r.peers()[i], m) && m == s.raft.append_for(r.peers()[i])
        }),
{
    let t = r.add_entry(io, cmd);
    let n = t.raft.peers().len() as int;
    lemma_broadcast(t.raft, t.io, n, i);
    let s = r.propose(io, cmd);
    let to = r.peers()[i];
    assert(s.raft.log.entries.drop_last() =~= r.log.entries);
    assert(t.raft.peers() == r.peers());
    lemma_last_index(r.log);
    let at = (or_one(r.next_index, to.0) - 1) as u64;
    if at > 0 {
        assert(r.log.get(at) is Some);
        assert(t.raft.log.entries[at - 1] == r.log.entries[at - 1]);
        assert(t.raft.log.entries.last().index == r.log.last_index() + 1);
        assert(t.raft.log.get(at) is Some);
    }
    assert(t.raft.append_for(to) == s.raft.append_for(to));
    assert(extends(io.log, t.io.log));
    let k = choose|k: int|
        t.io.log.len() <= k < s.io.log.len() && #[trigger] s.io.log[k] == (Effect::Send {
            to,
            payload: MessageView::Raft(t.raft.append_for(to)).wire(),
        });
    assert(s.io.log[k] == (Effect::Send {
        to,
        payload: MessageView::Raft(s.raft.append_for(to)).wire(),
    }));
    assert(said(io.log, s.io.log, to, s.raft.append_for(to)));
}

/// A confirmation moves a peer forward, never back: what it is known to hold is
/// the most it ever confirmed, and the next entry it is sent is the one after. It
/// is sent more as long as there is more.
pub proof fn law_confirmations_move_peers_forward(
    r: RaftView,
    io: IoState,
    from: NodeId,
    match_index: u64,
    conflict_index: u64,
)
    requires
        r.wf(),
        !r.failed,
        r.role == Role::Leader,
        r.term <= r.durable_term,
        match_index <= r.log.last_index() < u64::MAX,
        or_zero(r.match_index, from.0) <= r.log.last_index(),
    ensures
        ({
            let s = r.on_message(
                io,
                from,
                RaftMsgView::AppendEntriesResp {
                    term: r.term,
                    success: true,
                    match_index,
                    conflict_index,
                },
            );
            let m = or_zero(s.raft.match_index, from.0);
            &&& m >= match_index && m >= or_zero(r.match_index, from.0)
            &&& m == match_index || m == or_zero(r.match_index, from.0)
            &&& s.raft.next_index.contains_key(from.0) && s.raft.next_index[from.0] == m + 1
            &&& forall|p: u32|
                p != from.0 ==> #[trigger] or_zero(s.raft.match_index, p) == or_zero(
                    r.match_index,
                    p,
                ) && or_one(s.raft.next_index, p) == or_one(r.next_index, p)
            &&& m < r.log.last_index() ==> said(io.log, s.io.log, from, s.raft.append_for(from))
            &&& s.raft.log == r.log && s.raft.term == r.term && s.raft.role == Role::Leader
        }),
{
    reveal(RaftView::on_append_resp);
    reveal(RaftView::maybe_commit);
    lemma_last_index(r.log);
    let s = r.on_message(
        io,
        from,
        RaftMsgView::AppendEntriesResp {
            term: r.term,
            success: true,
            match_index,
            conflict_index,
        },
    );
    let known = or_zero(r.match_index, from.0);
    let m = if match_index > known {
        match_index
    } else {
        known
    };
    if m < r.log.last_index() {
        if m > 0 {
            assert(r.log.get(m) is Some);
        }
        let k = s.io.log.len() - 1;
        assert(s.io.log[k] == (Effect::Send {
            to: from,
            payload: MessageView::Raft(s.raft.append_for(from)).wire(),
        }));
    }
}

/// A refusal moves a peer back: to where it says, at least by one, never below
/// the first entry; and the peer is tried again from there.
pub proof fn law_refusals_move_peers_back(
    r: RaftView,
    io: IoState,
    from: NodeId,
    match_index: u64,
    conflict_index: u64,
)
    requires
        r.wf(),
        !r.failed,
        r.role == Role::Leader,
        r.term <= r.durable_term,
        r.next_index.contains_key(from.0),
        1 <= r.next_index[from.0] <= r.log.last_index() + 1,
    ensures
        ({
            let s = r.on_message(
                io,
                from,
                RaftMsgView::AppendEntriesResp {
                    term: r.term,
                    success: false,
                    match_index,
                    conflict_index,
                },
            );
            let (was, now) = (r.next_index[from.0], s.raft.next_index[from.0]);
            &&& s.raft.next_index.contains_key(from.0)
            &&& now >= 1
            &&& was > 1 ==> now < was
            &&& conflict_index >= 1 ==> now <= conflict_index
            &&& now > 1 ==> now == conflict_index || now == was - 1
            &&& 1 <= conflict_index < was ==> now == conflict_index
            &&& conflict_index >= was > 1 ==> now == was - 1
            &&& s.raft.match_index == r.match_index
            &&& s.raft.commit_index == r.commit_index && s.raft.log == r.log
            &&& said(io.log, s.io.log, from, s.raft.append_for(from))
        }),
{
    reveal(RaftView::on_append_resp);
    lemma_last_index(r.log);
    let s = r.on_message(
        io,
        from,
        RaftMsgView::AppendEntriesResp {
            term: r.term,
            success: false,
            match_index,
            conflict_index,
        },
    );
    let now = s.raft.next_index[from.0];
    if now > 1 {
        assert(r.log.get((now - 1) as u64) is Some);
    }
    let k = s.io.log.len() - 1;
    assert(s.io.log[k] == (Effect::Send {
        to: from,
        payload: MessageView::Raft(s.raft.append_for(from)).wire(),
    }));
}

// ---- what is committed -------------------------------------------------------

proof fn lemma_at_least(values: Seq<u64>, v: u64)
    ensures
        at_least(values, v) == values.filter(|x: u64| x >= v).len(),
    decreases values.len(),
{
    reveal(Seq::filter);
    if values.len() > 0 {
        lemma_at_least(values.drop_last(), v);
    }
}

/// Counting replicas counts the members that hold an index.
pub proof fn law_replicas_are_counted(values: Seq<u64>, v: u64)
    ensures
        at_least(values, v) == values.filter(|x: u64| x >= v).len(),
{
    lemma_at_least(values, v);
}

proof fn lemma_reached(values: Seq<u64>, q: nat, n: int)
    requires
        0 <= n <= values.len(),
    ensures
        ({
            let c = reached_by(values, q, n);
            &&& c == 0 || (at_least(values, c) >= q && values.contains(c))
            &&& forall|i: int| 0 <= i < n && at_least(values, #[trigger] values[i]) >= q ==> values[i] <= c
        }),
    decreases n,
{
    if n > 0 {
        lemma_reached(values, q, n - 1);
        assert(values.contains(values[n - 1]));
    }
}

proof fn lemma_replicated(r: RaftView, n: int)
    requires
        0 <= n <= r.members.len(),
    ensures
        r.replicated(n).len() == n,
        forall|i: int|
            0 <= i < n ==> #[trigger] r.replicated(n)[i] == (if r.members[i] == r.id {
                r.durable_index()
            } else {
                or_zero(r.match_index, r.members[i].0)
            }),
    decreases n,
{
    if n > 0 {
        lemma_replicated(r, n - 1);
        let (a, b) = (r.replicated(n - 1), r.replicated(n));
        assert forall|i: int| 0 <= i < n implies #[trigger] b[i] == (if r.members[i] == r.id {
            r.durable_index()
        } else {
            or_zero(r.match_index, r.members[i].0)
        }) by {
            if i < n - 1 {
                assert(b[i] == a[i]);
            }
        }
    }
}

/// A leader commits all it may: the highest index that a majority is known to
/// hold durably, counting itself by what is durable here and its peers by what
/// they confirmed, as soon as that is beyond what was committed and of its own
/// term.
pub proof fn law_leaders_commit_all_they_may(r: RaftView, io: IoState)
    requires
        r.cfg.bug != InjectedBug::CommitAnyTerm,
    ensures
        ({
            let n = r.members.len() as int;
            let held = r.replicated(n);
            let c = r.quorum_index();
            let s = r.maybe_commit(io);
            &&& held.len() == n
            &&& forall|i: int|
                0 <= i < n ==> #[trigger] held[i] == (if r.members[i] == r.id {
                    r.durable_index()
                } else {
                    or_zero(r.match_index, r.members[i].0)
                })
            &&& c == 0 || (held.contains(c) && held.filter(|x: u64| x >= c).len() >= r.quorum())
            &&& forall|i: int|
                0 <= i < n && held.filter(|x: u64| x >= #[trigger] held[i]).len() >= r.quorum()
                    ==> held[i] <= c
            &&& c > r.commit_index && r.log.term_at(c) == Some(r.term) ==> s.raft.commit_index == c
            &&& c <= r.commit_index || r.log.term_at(c) != Some(r.term) ==> s.raft.commit_index
                == r.commit_index && s.io == io
            &&& s.raft.log == r.log && s.raft.match_index == r.match_index
        }),
{
    reveal(RaftView::maybe_commit);
    let n = r.members.len() as int;
    let held = r.replicated(n);
    lemma_replicated(r, n);
    lemma_reached(held, r.quorum(), n);
    let c = r.quorum_index();
    lemma_at_least(held, c);
    assert forall|i: int|
        0 <= i < n && held.filter(|x: u64| x >= #[trigger] held[i]).len()
            >= r.quorum() implies held[i] <= c by {
        lemma_at_least(held, held[i]);
    }
}

// ---- where a follower is told to back up to ------------------------------------

proof fn lemma_run_start(log: LogView, term: u64, i: u64)
    requires
        i >= 1,
        log.term_at(i) == Some(term),
    ensures
        ({
            let h = run_start(log, term, i);
            &&& 1 <= h <= i
            &&& forall|j: u64| h <= j <= i ==> #[trigger] log.term_at(j) == Some(term)
            &&& h > 1 ==> log.term_at((h - 1) as u64) != Some(term)
        }),
    decreases i,
{
    if i > 1 && log.term_at((i - 1) as u64) == Some(term) {
        lemma_run_start(log, term, (i - 1) as u64);
    }
}

/// Where an append does not fit, the leader is told where to look: behind the
/// end of a log that is too short, or at the first entry of the whole run of the
/// term that does not match.
pub proof fn law_hints_skip_a_term(r: RaftView, prev_index: u64)
    requires
        r.wf(),
        prev_index >= 1,
        r.log.last_index() < u64::MAX,
    ensures
        ({
            let h = r.conflict_hint(prev_index);
            &&& h >= 1
            &&& prev_index > r.log.last_index() ==> h == r.log.last_index() + 1
            &&& prev_index <= r.log.last_index() ==> {
                &&& h <= prev_index
                &&& forall|j: u64|
                    h <= j <= prev_index ==> #[trigger] r.log.term_at(j) == r.log.term_at(prev_index)
                &&& h > 1 ==> r.log.term_at((h - 1) as u64) != r.log.term_at(prev_index)
            }
        }),
{
    lemma_last_index(r.log);
    if prev_index <= r.log.last_index() {
        assert(r.log.get(prev_index) is Some);
        lemma_run_start(r.log, r.log.term_at(prev_index)->Some_0, prev_index);
    }
}

/// An append of an old term is refused with the term that made it old, and
/// changes nothing.
pub proof fn law_old_leaders_are_refused(
    r: RaftView,
    io: IoState,
    from: NodeId,
    term: u64,
    leader: NodeId,
    prev_index: u64,
    prev_term: u64,
    entries: Seq<EntryView>,
    leader_commit: u64,
)
    requires
        !r.failed,
        term < r.term <= r.durable_term,
    ensures
        ({
            let s = r.on_message(
                io,
                from,
                RaftMsgView::AppendEntries {
                    term,
                    leader,
                    prev_index,
                    prev_term,
                    entries,
                    leader_commit,
                },
            );
            &&& s.raft == r
            &&& said(
                io.log,
                s.io.log,
                from,
                RaftMsgView::AppendEntriesResp {
                    term: r.term,
                    success: false,
                    match_index: 0,
                    conflict_index: 0,
                },
            )
        }),
{
    reveal(RaftView::on_append_entries);
    let s = r.on_message(
        io,
        from,
        RaftMsgView::AppendEntries {
            term,
            leader,
            prev_index,
            prev_term,
            entries,
            leader_commit,
        },
    );
    assert(s.io.log[io.log.len() as int] == (Effect::Send {
        to: from,
        payload: MessageView::Raft(
            RaftMsgView::AppendEntriesResp {
                term: r.term,
                success: false,
                match_index: 0,
                conflict_index: 0,
            },
        ).wire(),
    }));
}

/// An append of this term or a later one is heeded: whoever sent it leads, and
/// this node follows, in that term, and waits anew. Where its log does not hold
/// what comes before, nothing is stored and the leader is told where to look.
pub proof fn law_leaders_are_heeded(
    r: RaftView,
    io: IoState,
    from: NodeId,
    term: u64,
    leader: NodeId,
    prev_index: u64,
    prev_term: u64,
    entries: Seq<EntryView>,
    leader_commit: u64,
)
    requires
        r.wf(),
        !r.failed,
        term >= r.term,
    ensures
        ({
            let s = r.on_message(
                io,
                from,
                RaftMsgView::AppendEntries {
                    term,
                    leader,
                    prev_index,
                    prev_term,
                    entries,
                    leader_commit,
                },
            );
            &&& s.raft.term == term
            &&& s.raft.role == Role::Follower
            &&& s.raft.leader == Some(leader)
            &&& s.raft.election_timer.handle is Some
            &&& s.raft.heartbeat_timer.handle is None || r.role == Role::Follower
            &&& term == r.term ==> s.raft.voted_for == r.voted_for
            &&& term > r.term ==> s.raft.voted_for is None
            &&& r.log.term_at(prev_index) != Some(prev_term) ==> s.raft.log == r.log
                && s.raft.commit_index == r.commit_index && (term == r.term && r.term
                <= r.durable_term ==> said(
                io.log,
                s.io.log,
                from,
                RaftMsgView::AppendEntriesResp {
                    term,
                    success: false,
                    match_index: r.durable_index(),
                    conflict_index: r.conflict_hint(prev_index),
                },
            ))
        }),
{
    reveal(RaftView::on_append_entries);
    reveal(RaftView::heed_leader);
    reveal(RaftView::step_down);
    reveal(RaftView::take_append);
    reveal(RaftView::store_entries);
    let s = r.on_message(
        io,
        from,
        RaftMsgView::AppendEntries {
            term,
            leader,
            prev_index,
            prev_term,
            entries,
            leader_commit,
        },
    );
    if r.log.term_at(prev_index) != Some(prev_term) && term == r.term && r.term <= r.durable_term {
        let k = s.io.log.len() - 1;
        assert(s.io.log[k] == (Effect::Send {
            to: from,
            payload: MessageView::Raft(
                RaftMsgView::AppendEntriesResp {
                    term,
                    success: false,
                    match_index: r.durable_index(),
                    conflict_index: r.conflict_hint(prev_index),
                },
            ).wire(),
        }));
    }
}

// ---- what a follower stores ----------------------------------------------------

proof fn lemma_held(log: LogView, prev_index: u64, entries: Seq<EntryView>, i: int)
    requires
        log.wf(),
        log.snapshot_index == 0,
        0 <= i <= entries.len(),
        prev_index + entries.len() < u64::MAX,
    ensures
        ({
            let (new, cut) = first_new(log, prev_index, entries, i);
            let end = match new {
                Some(k) => k,
                None => entries.len() as int,
            };
            &&& i <= end <= entries.len()
            &&& new is Some ==> end < entries.len()
            &&& forall|j: int|
                i <= j < end ==> log.term_at((prev_index + 1 + j) as u64) == Some(
                    (#[trigger] entries[j]).term,
                )
            &&& new matches Some(k) ==> (match cut {
                Some(at) => at == prev_index + 1 + k && log.term_at(at) is Some && log.term_at(at)
                    != Some(entries[k].term),
                None => log.term_at((prev_index + 1 + k) as u64) is None,
            })
            &&& new is None ==> cut is None
        }),
    decreases entries.len() - i,
{
    if i < entries.len() {
        let idx = (prev_index + 1 + i) as u64;
        if log.term_at(idx) == Some(entries[i].term) {
            lemma_held(log, prev_index, entries, i + 1);
        }
    }
}

/// Once an append is taken, the log agrees with the leader's as far as the append
/// goes: up to its first entry it is as it was, and from there it holds, at every
/// index the append covers, an entry of the term the append names. Nothing is cut
/// off that does not contradict the leader. And what the leader has committed is
/// committed here, as far as this append vouches for it.
#[verifier::spinoff_prover]
#[verifier::rlimit(40)]
pub proof fn law_appends_are_taken(
    r: RaftView,
    io: IoState,
    from: NodeId,
    prev_index: u64,
    prev_term: u64,
    entries: Seq<EntryView>,
    leader_commit: u64,
    dirty: bool,
)
    requires
        r.wf(),
        r.cfg.bug != InjectedBug::TruncateOnAnyAppend,
        r.log.matches(prev_index, prev_term),
        follow_on(prev_index, prev_term, entries, 0),
        prev_index + entries.len() < u64::MAX,
    ensures
        ({
            let s = r.take_append(io, from, prev_index, prev_term, entries, leader_commit, dirty);
            let last = prev_index + entries.len();
            let agreed = least(leader_commit, last as u64);
            &&& forall|i: u64| 0 < i <= prev_index ==> #[trigger] s.raft.log.get(i) == r.log.get(i)
            &&& forall|i: int|
                0 <= i < entries.len() ==> s.raft.log.term_at((prev_index + 1 + i) as u64) == Some(
                    (#[trigger] entries[i]).term,
                )
            &&& s.raft.log.last_index() >= last
            &&& (forall|i: int|
                0 <= i < entries.len() ==> r.log.term_at((prev_index + 1 + i) as u64) == Some(
                    (#[trigger] entries[i]).term,
                )) ==> s.raft.log == r.log
            &&& s.raft.log != r.log ==> s.raft.log.last_index() == last && s.raft.log.get(last as u64)
                == Some(entries.last())
            &&& s.raft.commit_index == if agreed > r.commit_index {
                agreed
            } else {
                r.commit_index
            }
            &&& s.raft.last_applied == r.last_applied
        }),
{
    reveal(RaftView::take_append);
    reveal(RaftView::store_entries);
    let s = r.take_append(io, from, prev_index, prev_term, entries, leader_commit, dirty);
    let last = prev_index + entries.len();
    lemma_last_index(r.log);
    let (new, cut) = r.append_plan(prev_index, entries);
    assert((new, cut) == first_new(r.log, prev_index, entries, 0));
    lemma_held(r.log, prev_index, entries, 0);
    if prev_index > 0 {
        assert(r.log.get(prev_index) is Some);
    }
    match new {
        None => {
            let q = r.confirm_append(io, from, last as u64, dirty);
            assert(q.raft.log == r.log && q.raft.commit_index == r.commit_index
                && q.raft.last_applied == r.last_applied);
            assert(s == q.raft.follow_commit(q.io, leader_commit, last as u64));
            assert(s.raft.log == r.log);
            assert forall|i: u64| 0 < i <= prev_index implies #[trigger] s.raft.log.get(i)
                == r.log.get(i) by {}
            if entries.len() > 0 {
                let k = entries.len() - 1;
                assert(r.log.term_at((prev_index + 1 + k) as u64) == Some(entries[k].term));
                assert(r.log.get(last as u64) is Some);
            }
            assert(r.log.last_index() >= last);
            assert forall|i: int| 0 <= i < entries.len() implies s.raft.log.term_at(
                (prev_index + 1 + i) as u64,
            ) == Some((#[trigger] entries[i]).term) by {}
        },
        Some(k) => {
            lemma_follow_from(prev_index, prev_term, entries, 0, k);
            let base = match cut {
                Some(at) => r.log.truncate_from(at),
                None => r.log,
            };
            let log = base.append_all(entries.skip(k));
            lemma_stored(r, prev_index, prev_term, entries, k, cut, base, log);
            let q = r.store_entries(io, from, prev_index, entries, k, cut, dirty);
            assert(q.raft.log == log && q.raft.commit_index == r.commit_index && q.raft.last_applied
                == r.last_applied);
            assert(s == q.raft.follow_commit(q.io, leader_commit, last as u64));
            assert(s.raft.log == log);
            assert forall|i: u64| 0 < i <= prev_index implies #[trigger] s.raft.log.get(i)
                == r.log.get(i) by {
                assert(log.get(i) == r.log.get(i));
            }
            assert forall|i: int| 0 <= i < entries.len() implies s.raft.log.term_at(
                (prev_index + 1 + i) as u64,
            ) == Some((#[trigger] entries[i]).term) by {
                assert(log.term_at((prev_index + 1 + i) as u64) == Some(entries[i].term));
            }
            assert(s.raft.log.last_index() == last);
            if forall|i: int|
                0 <= i < entries.len() ==> r.log.term_at((prev_index + 1 + i) as u64) == Some(
                    (#[trigger] entries[i]).term,
                ) {
                assert(r.log.term_at((prev_index + 1 + k) as u64) == Some(entries[k].term));
            }
        },
    }
}

/// The log once the entries from the first new one on are stored.
proof fn lemma_stored(
    r: RaftView,
    prev_index: u64,
    prev_term: u64,
    entries: Seq<EntryView>,
    k: int,
    cut: Option<u64>,
    base: LogView,
    log: LogView,
)
    requires
        base == (match cut {
            Some(at) => r.log.truncate_from(at),
            None => r.log,
        }),
        log == base.append_all(entries.skip(k)),
        r.wf(),
        r.cfg.bug != InjectedBug::TruncateOnAnyAppend,
        r.log.matches(prev_index, prev_term),
        prev_index + entries.len() < u64::MAX,
        first_new(r.log, prev_index, entries, 0) == (Some(k), cut),
        0 <= k < entries.len(),
        follow_on(
            prev_index,
            if k == 0 {
                prev_term
            } else {
                entries[k - 1].term
            },
            entries,
            k,
        ),
    ensures
        forall|i: u64| 0 < i <= prev_index ==> #[trigger] log.get(i) == r.log.get(i),
        forall|i: int|
            0 <= i < entries.len() ==> log.term_at((prev_index + 1 + i) as u64) == Some(
                (#[trigger] entries[i]).term,
            ),
        log.last_index() == prev_index + entries.len(),
        log.get((prev_index + entries.len()) as u64) == Some(entries.last()),
{
    let last = prev_index + entries.len();
    lemma_last_index(r.log);
    lemma_held(r.log, prev_index, entries, 0);
    if prev_index > 0 {
        assert(r.log.get(prev_index) is Some);
    }
    lemma_plan_storable(r, prev_index, prev_term, entries, k);
    let tail = entries.skip(k);
    if let Some(at) = cut {
        lemma_truncate_wf(r.log, at);
    }
    lemma_last_index(base);
    let start = prev_index + 1 + k;
    assert(base.last_index() + 1 == start) by {
        if cut is None {
            assert(r.log.term_at(start as u64) is None);
            if k > 0 {
                assert(r.log.term_at((prev_index + 1 + (k - 1)) as u64) is Some);
            }
        }
    }
    lemma_storable_end(base, tail);
    lemma_append_all_entries(base, tail);
    lemma_last_index(log);
    assert(base.entries =~= r.log.entries.take(start - 1));
    assert forall|i: u64| 0 < i < start implies #[trigger] log.get(i) == r.log.get(i) by {
        assert(log.entries[i - 1] == base.entries[i - 1]);
    }
    assert forall|i: int| 0 <= i < entries.len() implies log.term_at((prev_index + 1 + i) as u64)
        == Some((#[trigger] entries[i]).term) by {
        let idx = (prev_index + 1 + i) as u64;
        if i < k {
            assert(log.get(idx) == r.log.get(idx));
        } else {
            assert(log.entries[idx - 1] == tail[i - k]);
        }
    }
    assert(log.entries[last - 1] == tail[tail.len() - 1]);
}

proof fn lemma_follow_from(prev_index: u64, floor: u64, entries: Seq<EntryView>, i: int, k: int)
    requires
        0 <= i <= k < entries.len(),
        follow_on(prev_index, floor, entries, i),
    ensures
        follow_on(
            prev_index,
            if k == i {
                floor
            } else {
                entries[k - 1].term
            },
            entries,
            k,
        ),
    decreases k - i,
{
    if i < k {
        lemma_follow_from(prev_index, entries[i].term, entries, i + 1, k);
    }
}

/// Where an append brings nothing new, it is acknowledged at once, as far as it
/// was compared and is durable.
pub proof fn law_known_entries_are_acknowledged(
    r: RaftView,
    io: IoState,
    from: NodeId,
    last: u64,
)
    requires
        r.term <= r.durable_term,
    ensures
        said(
            io.log,
            r.confirm_append(io, from, last, false).io.log,
            from,
            RaftMsgView::AppendEntriesResp {
                term: r.term,
                success: true,
                match_index: least(r.durable_index(), last),
                conflict_index: 0,
            },
        ),
        r.confirm_append(io, from, last, false).raft == r,
{
    assert(r.confirm_append(io, from, last, false).io.log[io.log.len() as int] == (Effect::Send {
        to: from,
        payload: MessageView::Raft(
            RaftMsgView::AppendEntriesResp {
                term: r.term,
                success: true,
                match_index: least(r.durable_index(), last),
                conflict_index: 0,
            },
        ).wire(),
    }));
}

/// Once entries are durable, the leader they came from is told how far: no
/// further than they were compared, and no less than is durable of that.
pub proof fn law_stored_entries_are_acknowledged(
    r: RaftView,
    io: IoState,
    index: u64,
    to: NodeId,
    reply_term: u64,
    span: Span,
)
    requires
        r.role != Role::Leader,
        reply_term <= r.durable_term,
    ensures
        said(
            io.log,
            r.on_durable(
                io,
                Persist::LogDurable { index, reply_to: Some(to), reply_term },
                span,
            ).io.log,
            to,
            RaftMsgView::AppendEntriesResp {
                term: reply_term,
                success: true,
                match_index: least(r.durable_index(), span.agreed),
                conflict_index: 0,
            },
        ),
{
    reveal(RaftView::on_durable);
    let out = r.on_durable(
        io,
        Persist::LogDurable { index, reply_to: Some(to), reply_term },
        span,
    ).io.log;
    assert(out[io.log.len() as int] == (Effect::Send {
        to,
        payload: MessageView::Raft(
            RaftMsgView::AppendEntriesResp {
                term: reply_term,
                success: true,
                match_index: least(r.durable_index(), span.agreed),
                conflict_index: 0,
            },
        ).wire(),
    }));
}

/// Cutting a log takes every claim on what is cut with it: nothing beyond the cut
/// is synced, parked or still to be claimed; what lies below stays as it was; and
/// a cut into what was committed is counted.
pub proof fn law_cuts_take_their_claims(r: RaftView, io: IoState, at: u64)
    requires
        r.wf(),
        0 < at <= r.log.last_index(),
        r.stats.truncations < u64::MAX,
        r.stats.truncated_committed < u64::MAX,
    ensures
        ({
            let s = r.truncate(io, at).raft;
            &&& s.log.last_index() == at - 1
            &&& s.log.entries == r.log.entries.take(at - 1)
            &&& s.synced_index < at
            &&& s.synced_index == r.synced_index || s.synced_index == at - 1
            &&& r.synced_index < at ==> s.synced_index == r.synced_index
            &&& forall|i: int| 0 <= i < s.parked.len() ==> (#[trigger] s.parked[i]).1 < at
            &&& s.stats.truncations == r.stats.truncations + 1
            &&& s.stats.truncated_committed - r.stats.truncated_committed == if at <= r.commit_index {
                1int
            } else {
                0
            }
            &&& s.commit_index == r.commit_index && s.term == r.term && s.voted_for == r.voted_for
            &&& forall|i: int|
                0 <= i < s.persister.batches.len() ==> match (
                #[trigger] s.persister.batches[i]).action {
                    Persist::LogDurable { index, .. } => index < at,
                    _ => true,
                }
        }),
{
    lemma_last_index(r.log);
    lemma_truncate_wf(r.log, at);
    lemma_last_index(r.log.truncate_from(at));
    lemma_parked(r.parked, (at - 1) as u64);
}

proof fn lemma_parked(parked: Seq<(u64, u64)>, cap: u64)
    ensures
        forall|i: int|
            0 <= i < parked_below(parked, cap).len() ==> (#[trigger] parked_below(parked, cap)[i]).1
                <= cap && parked_below(parked, cap)[i].0 <= cap,
        forall|i: int|
            0 <= i < parked.len() && (#[trigger] parked[i]).0 <= cap ==> parked_below(
                parked,
                cap,
            ).contains((parked[i].0, least(parked[i].1, cap))),
    decreases parked.len(),
{
    if parked.len() > 0 {
        let d = parked.drop_last();
        lemma_parked(d, cap);
        let (a, b) = (parked_below(d, cap), parked_below(parked, cap));
        assert forall|i: int| 0 <= i < b.len() implies (#[trigger] b[i]).1 <= cap && b[i].0 <= cap by {
            if i < a.len() {
                assert(b[i] == a[i]);
            }
        }
        assert forall|i: int| 0 <= i < parked.len() && (#[trigger] parked[i]).0 <= cap implies b.contains(
            (parked[i].0, least(parked[i].1, cap)),
        ) by {
            let x = (parked[i].0, least(parked[i].1, cap));
            if i < d.len() {
                assert(d[i] == parked[i]);
                let k = choose|k: int| 0 <= k < a.len() && a[k] == x;
                assert(b[k] == x);
            } else {
                assert(b[b.len() - 1] == x);
            }
        }
    }
}

/// Parked ranges that lie below a cut stay parked as far as they do.
pub proof fn law_parked_ranges_survive_a_cut(parked: Seq<(u64, u64)>, cap: u64, i: int)
    requires
        0 <= i < parked.len(),
        parked[i].0 <= cap,
    ensures
        parked_below(parked, cap).contains((parked[i].0, least(parked[i].1, cap))),
{
    lemma_parked(parked, cap);
}

// ---- what is handed on and what comes back --------------------------------------

/// Everything that is committed is handed to the state machine, up to the end of
/// the log, from where the last handing stopped.
pub proof fn law_all_that_is_committed_is_applied(r: RaftView)
    requires
        r.wf(),
    ensures
        r.last_applied <= r.commit_index && r.last_applied <= r.log.last_index()
            ==> r.take_applied().last_applied == least(r.commit_index, r.log.last_index()),
        forall|i: int|
            0 <= i < r.applicable().len() ==> r.log.get((r.last_applied + 1 + i) as u64) == Some(
                #[trigger] r.applicable()[i],
            ),
        r.take_applied().log == r.log,
        r.take_applied().commit_index == r.commit_index,
{
    lemma_last_index(r.log);
    assert forall|i: int| 0 <= i < r.applicable().len() implies r.log.get(
        (r.last_applied + 1 + i) as u64,
    ) == Some(#[trigger] r.applicable()[i]) by {
        assert(r.applicable()[i] == r.log.entries[r.last_applied + i]);
    }
}

proof fn lemma_up_to_term(es: Seq<EntryView>, term: u64)
    ensures
        up_to_term(es, term).len() <= es.len(),
        up_to_term(es, term) == es.take(up_to_term(es, term).len() as int),
        forall|i: int| up_to_term(es, term).len() <= i < es.len() ==> (#[trigger] es[i]).term > term,
    decreases es.len(),
{
    if es.len() == 0 || es.last().term <= term {
        assert(es.take(es.len() as int) =~= es);
    } else {
        let d = es.drop_last();
        lemma_up_to_term(d, term);
        let n = up_to_term(d, term).len() as int;
        assert(es.take(n) =~= d.take(n));
        assert forall|i: int| n <= i < es.len() implies (#[trigger] es[i]).term > term by {
            if i < d.len() {
                assert(d[i] == es[i]);
            }
        }
    }
}

/// A node that restarts drops no more than it must: every entry it found intact
/// and leaves out is of a later term than the one it is sure of. It starts as a
/// follower that knows no leader and has nothing in flight; everything it kept
/// counts as durable; and it waits for a leader before it stands.
pub proof fn law_restarts_keep_what_they_can(
    io: IoState,
    id: NodeId,
    members: Seq<NodeId>,
    cfg: RaftConfig,
    seed: u64,
)
    ensures
        ({
            let file = io.file(FILE_WAL);
            let s = RaftView::recover(io, id, members, cfg, seed);
            let found = recovered(RaftView::log_bytes(file), 1);
            let kept = s.raft.log.entries.len() as int;
            let cut = found.damaged || kept < found.entries.len();
            &&& kept <= found.entries.len()
            &&& s.raft.log.entries == found.entries.take(kept)
            &&& forall|i: int|
                kept <= i < found.entries.len() ==> (#[trigger] found.entries[i]).term > s.raft.term
            &&& s.raft.term == recovered_state(file).term
            &&& s.raft.voted_for == recovered_state(file).voted_for
            &&& s.raft.role == Role::Follower && s.raft.leader is None && !s.raft.failed
            &&& s.raft.commit_index == 0 && s.raft.last_applied == 0
            &&& s.raft.synced_index == kept
            &&& s.raft.id == id && s.raft.members == members
            &&& s.raft.election_timer.handle is Some
            &&& s.raft.persister.batches.len() == 0
            &&& cut ==> s.io.log[io.log.len() as int] == (Effect::SetLen {
                file: FILE_WAL,
                len: capped(LOG_REGION + s.raft.log.end),
            }) && s.io.log[(io.log.len() + 1) as int] == (Effect::Sync { file: FILE_WAL })
            &&& !cut ==> forall|k: int|
                io.log.len() <= k < s.io.log.len() ==> !(#[trigger] s.io.log[k] is SetLen)
                    && !(s.io.log[k] is WriteAt) && !(s.io.log[k] is Sync)
        }),
{
    let file = io.file(FILE_WAL);
    let s = RaftView::recover(io, id, members, cfg, seed);
    let hs = recovered_state(file);
    let found = recovered(RaftView::log_bytes(file), 1);
    let kept = up_to_term(found.entries, hs.term);
    lemma_up_to_term(found.entries, hs.term);
    lemma_append_all_entries(LogView::empty(), kept);
    assert(LogView::empty().entries + kept =~= kept);
    law_recovery_is_contiguous(RaftView::log_bytes(file), 1);
    let n = io.log.len() as int;
    assert(s.raft.log.entries == kept);
    if kept.len() > 0 {
        assert(kept.last() == found.entries[kept.len() - 1]);
    }
}

// ---- what batches say of themselves -----------------------------------------------

/// Every message is of the term it carries.
pub proof fn law_messages_carry_their_term(
    term: u64,
    node: NodeId,
    a: u64,
    b: u64,
    c: u64,
    yes: bool,
    entries: Seq<EntryView>,
)
    ensures
        (RaftMsgView::RequestVote { term, candidate: node, last_index: a, last_term: b }).term() == term,
        (RaftMsgView::RequestVoteResp { term, granted: yes }).term() == term,
        (RaftMsgView::AppendEntries {
            term,
            leader: node,
            prev_index: a,
            prev_term: b,
            entries,
            leader_commit: c,
        }).term() == term,
        (RaftMsgView::AppendEntriesResp { term, success: yes, match_index: a, conflict_index: b }).term()
            == term,
{
}

proof fn lemma_write_log_batch(r: RaftView, io: IoState, id: u64, from: u64, truncated: bool)
    requires
        r.persister.batches.len() > 0,
        r.persister.batches.last().id == id,
    ensures
        ({
            let s = r.write_log_from(io, id, from, truncated);
            let (a, b) = (r.persister.batches, s.raft.persister.batches);
            &&& b.len() == a.len()
            &&& b.last().action == a.last().action
            &&& b.last().span == a.last().span
            &&& b.last().id == id
            &&& s.raft == (RaftView { persister: s.raft.persister, ..r })
        }),
{
    lemma_batch_place(r.persister.batches, id, 0);
    assert(r.persister.batches[r.persister.batches.len() - 1].id == id);
    let offset = capped(LOG_REGION + r.log.byte_offset_of(from));
    let s = r.write_len(io, id, offset);
    assert(s.raft.persister.batches[s.raft.persister.batches.len() - 1].id == id);
    lemma_batch_place(s.raft.persister.batches, id, 0);
}

/// What a leader writes for a command says what it covers: the one index, with
/// nobody to tell but itself.
pub proof fn law_own_entries_are_covered(r: RaftView, io: IoState, cmd: CommandView)
    requires
        r.wf(),
        r.has_room(),
    ensures
        ({
            let b = r.add_entry(io, cmd).raft.persister.batches.last();
            let index = (r.log.last_index() + 1) as u64;
            &&& b.action == (Persist::LogDurable { index, reply_to: None, reply_term: 0 })
            &&& b.span.first == index
            &&& b.span.agreed == u64::MAX
        }),
{
    let e = r.own_entry(cmd);
    let q = RaftView { log: r.log.append(e), ..r };
    let id = q.persister.fresh();
    let begun = q.begin(
        Persist::LogDurable { index: q.log.last_index(), reply_to: None, reply_term: 0 },
        Span::of_log(e.index, u64::MAX),
    );
    assert(q.log.entries.last() == e);
    lemma_write_log_batch(begun, io, id, e.index, false);
}

/// What a follower writes for an append says what it covers: from the first entry
/// that was new to the end of its log, compared as far as the append went; and
/// its leader is told once it is durable, in the term of the append.
pub proof fn law_stored_entries_are_covered(
    r: RaftView,
    io: IoState,
    from: NodeId,
    prev_index: u64,
    entries: Seq<EntryView>,
    i: int,
)
    requires
        0 <= i < entries.len(),
        prev_index + 1 + entries.len() < u64::MAX,
    ensures
        ({
            let s = r.store_entries(io, from, prev_index, entries, i, None, false);
            let b = s.raft.persister.batches.last();
            &&& b.action == (Persist::LogDurable {
                index: s.raft.log.last_index(),
                reply_to: Some(from),
                reply_term: r.term,
            })
            &&& b.span.first == prev_index + 1 + i
            &&& b.span.agreed == prev_index + entries.len()
            &&& s.raft.log == r.log.append_all(entries.skip(i))
        }),
{
    reveal(RaftView::store_entries);
    let tail = entries.skip(i);
    let q = RaftView {
        log: r.log.append_all(tail),
        stats: RaftStats {
            entries_replicated: capped_u64(r.stats.entries_replicated + tail.len()),
            ..r.stats
        },
        ..r
    };
    let id = q.persister.fresh();
    let start = (prev_index + 1 + i) as u64;
    let begun = q.begin(
        Persist::LogDurable {
            index: q.log.last_index(),
            reply_to: Some(from),
            reply_term: q.term,
        },
        Span::of_log(start, (prev_index + entries.len()) as u64),
    );
    lemma_write_log_batch(begun, io, id, start, false);
}

/// A finished batch makes its hard state count: the term and the number that are
/// known to be durable are the highest that ever were.
pub proof fn law_durable_terms_only_grow(r: RaftView, io: IoState, action: Persist, span: Span)
    ensures
        ({
            let s = r.settle(io, action, span).raft;
            &&& s.durable_term >= r.durable_term && s.durable_term >= span.term
            &&& s.durable_term == r.durable_term || s.durable_term == span.term
            &&& s.durable_seq >= r.durable_seq && s.durable_seq >= span.seq
            &&& s.durable_seq == r.durable_seq || s.durable_seq == span.seq
            &&& !(action is LogDurable) || span.first == 0 ==> s.synced_index == r.synced_index
                && s.parked == r.parked
            &&& s.log == r.log && s.term == r.term && s.commit_index == r.commit_index && s.role
                == r.role
        }),
{
    reveal(RaftView::settle);
}

} // verus!
