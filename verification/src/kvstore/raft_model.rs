//! Raft as a mathematical machine: the state of a node, and what each event
//! makes of it and of the world around it.

use crate::count::{bump, capped_u64};
use crate::kvstore::bug::InjectedBug;
use crate::kvstore::log::{capped, CommandView, EntryView, LogView, NO_INDEX};
use crate::kvstore::persist::{BatchEvent, Persist, PersisterView, Span};
use crate::kvstore::recovery::{offset_of_slot, records, recovered, recovered_state, HardState};
use crate::kvstore::wire::{MessageView, RaftMsgView};
use crate::sim_io::clock::{Deadline, TimerTag};
use crate::sim_io::effect::{Effect, IoState};
use crate::sim_io::network::majority;
use crate::sim_io::storage::FILE_WAL;
use crate::simcore::disk::OpId;
use crate::simcore::rng::Rng;
use crate::simcore::trace::Level;
use crate::simcore::{Nanos, NodeId};
use crate::text::decimal;
use vstd::prelude::*;

verus! {

/// The log begins after the two hard-state slots.
pub const LOG_REGION: usize = 128;

pub const TIMER_ELECTION: TimerTag = 1;

pub const TIMER_HEARTBEAT: TimerTag = 2;

/// What a node takes itself to be.
#[derive(Clone, Copy, PartialEq, Eq, Debug, Structural)]
pub enum Role {
    Follower,
    Candidate,
    Leader,
}

impl Role {
    /// What the role is called.
    pub open spec fn label(self) -> Seq<char> {
        match self {
            Role::Follower => "follower"@,
            Role::Candidate => "candidate"@,
            Role::Leader => "leader"@,
        }
    }

    pub fn name(self) -> (r: &'static str)
        ensures
            r@ == self.label(),
    {
        match self {
            Role::Follower => "follower",
            Role::Candidate => "candidate",
            Role::Leader => "leader",
        }
    }
}

/// How a node behaves.
#[derive(Clone, Copy, Debug, PartialEq, Eq)]
pub struct RaftConfig {
    /// Election timeouts are drawn uniformly from this range. The spread has to
    /// be wide enough that two nodes rarely time out together, or elections
    /// livelock.
    pub election_timeout: (Nanos, Nanos),
    pub heartbeat_interval: Nanos,
    /// Maximum entries per AppendEntries.
    pub max_batch: usize,
    /// A deliberate defect, for proving that the checkers can see it.
    pub bug: InjectedBug,
}

impl RaftConfig {
    /// The usual timing, and no defect.
    pub open spec fn standard() -> RaftConfig {
        RaftConfig {
            election_timeout: (300_000_000, 600_000_000),
            heartbeat_interval: 50_000_000,
            max_batch: 64,
            bug: InjectedBug::Off,
        }
    }
}

impl Default for RaftConfig {
    fn default() -> (r: RaftConfig)
        ensures
            r == RaftConfig::standard(),
    {
        RaftConfig {
            election_timeout: (300_000_000, 600_000_000),
            heartbeat_interval: 50_000_000,
            max_batch: 64,
            bug: InjectedBug::Off,
        }
    }
}

/// What a node has been through.
#[derive(Clone, Copy, Debug, PartialEq, Eq)]
pub struct RaftStats {
    pub elections_started: u64,
    pub elections_won: u64,
    pub appends_sent: u64,
    pub entries_replicated: u64,
    pub truncations: u64,
    /// Truncations that cut into committed entries: never, in a correct node.
    pub truncated_committed: u64,
    pub step_downs: u64,
    pub bad_messages: u64,
}

impl RaftStats {
    /// Nothing has happened yet.
    pub open spec fn zero() -> RaftStats {
        RaftStats {
            elections_started: 0,
            elections_won: 0,
            appends_sent: 0,
            entries_replicated: 0,
            truncations: 0,
            truncated_committed: 0,
            step_downs: 0,
            bad_messages: 0,
        }
    }
}

impl Default for RaftStats {
    fn default() -> (r: RaftStats)
        ensures
            r == RaftStats::zero(),
    {
        RaftStats {
            elections_started: 0,
            elections_won: 0,
            appends_sent: 0,
            entries_replicated: 0,
            truncations: 0,
            truncated_committed: 0,
            step_downs: 0,
            bad_messages: 0,
        }
    }
}

/// The state of a node.
#[verifier::ext_equal]
pub struct RaftView {
    pub id: NodeId,
    pub members: Seq<NodeId>,
    pub cfg: RaftConfig,
    pub role: Role,
    pub term: u64,
    pub voted_for: Option<NodeId>,
    pub log: LogView,
    pub commit_index: u64,
    pub last_applied: u64,
    pub leader: Option<NodeId>,
    pub votes: Set<u32>,
    pub next_index: Map<u32, u64>,
    pub match_index: Map<u32, u64>,
    pub synced_index: u64,
    pub parked: Seq<(u64, u64)>,
    pub durable_term: u64,
    pub durable_seq: u64,
    pub state_seq: u64,
    pub persister: PersisterView,
    pub election_timer: Deadline,
    pub heartbeat_timer: Deadline,
    pub rng: Rng,
    pub failed: bool,
    pub stats: RaftStats,
}

/// A node and the world around it.
#[verifier::ext_equal]
pub struct Stepped {
    pub raft: RaftView,
    pub io: IoState,
}

/// The members of a cluster except one.
pub open spec fn members_but(members: Seq<NodeId>, id: NodeId) -> Seq<NodeId>
    decreases members.len(),
{
    if members.len() == 0 {
        Seq::empty()
    } else {
        let rest = members_but(members.drop_last(), id);
        if members.last() == id {
            rest
        } else {
            rest.push(members.last())
        }
    }
}

/// The smaller of two numbers.
pub open spec fn least(a: u64, b: u64) -> u64 {
    if a < b {
        a
    } else {
        b
    }
}

/// How a truth value is shown.
pub open spec fn truth(b: bool) -> Seq<char> {
    if b {
        "true"@
    } else {
        "false"@
    }
}

/// How an optional node is shown.
pub open spec fn shown_vote(v: Option<NodeId>) -> Seq<char> {
    match v {
        Some(n) => "Some("@ + decimal(n.0 as nat) + ")"@,
        None => "None"@,
    }
}

// ---- durable ranges ------------------------------------------------------

/// The first parked range, from place `i` on, that joins what is synced.
pub open spec fn joining(parked: Seq<(u64, u64)>, synced: u64, i: int) -> Option<int>
    decreases parked.len() - i,
{
    if i >= parked.len() {
        None
    } else if parked[i].0 <= synced + 1 {
        Some(i)
    } else {
        joining(parked, synced, i + 1)
    }
}

/// What is synced once every range that joins it has been absorbed, and the
/// ranges that still wait for the gap below them to close.
pub open spec fn absorbed(synced: u64, parked: Seq<(u64, u64)>) -> (u64, Seq<(u64, u64)>)
    decreases parked.len(),
    via absorbed_decreases
{
    match joining(parked, synced, 0) {
        Some(i) => absorbed(
            if parked[i].1 > synced {
                parked[i].1
            } else {
                synced
            },
            parked.remove(i),
        ),
        None => (synced, parked),
    }
}

#[via_fn]
proof fn absorbed_decreases(synced: u64, parked: Seq<(u64, u64)>) {
    lemma_joining(parked, synced, 0);
}

pub proof fn lemma_joining(parked: Seq<(u64, u64)>, synced: u64, i: int)
    requires
        0 <= i,
    ensures
        joining(parked, synced, i) matches Some(p) ==> i <= p < parked.len() && parked[p].0 <= synced
            + 1,
    decreases parked.len() - i,
{
    if i < parked.len() && parked[i].0 > synced + 1 {
        lemma_joining(parked, synced, i + 1);
    }
}

/// Parked ranges cut to `cap`; those that lie beyond it are gone.
pub open spec fn parked_below(parked: Seq<(u64, u64)>, cap: u64) -> Seq<(u64, u64)>
    decreases parked.len(),
{
    if parked.len() == 0 {
        Seq::empty()
    } else {
        let rest = parked_below(parked.drop_last(), cap);
        let (first, last) = parked.last();
        if first > cap {
            rest
        } else {
            rest.push((first, least(last, cap)))
        }
    }
}

// ---- comparing logs ------------------------------------------------------

/// The first of the entries after `prev_index`, from place `i` on, that the
/// log does not hold yet, and the index at which it holds another.
pub open spec fn first_new(
    log: LogView,
    prev_index: u64,
    entries: Seq<EntryView>,
    i: int,
) -> (Option<int>, Option<u64>)
    decreases entries.len() - i,
{
    if i >= entries.len() {
        (None, None)
    } else {
        let idx = capped_u64(prev_index + 1 + i);
        match log.term_at(idx) {
            Some(t) => if t == entries[i].term {
                first_new(log, prev_index, entries, i + 1)
            } else {
                (Some(i), Some(idx))
            },
            None => (Some(i), None),
        }
    }
}

/// Whether the entries from place `i` on can follow one another in a log, from
/// index `prev_index + 1 + i` on, with terms that never fall below `floor`.
pub open spec fn follow_on(prev_index: u64, floor: u64, entries: Seq<EntryView>, i: int) -> bool
    decreases entries.len() - i,
{
    i >= entries.len() || (entries[i].index == prev_index + 1 + i && floor <= entries[i].term
        && follow_on(prev_index, entries[i].term, entries, i + 1))
}

/// How far back a run of one term reaches from `i`.
pub open spec fn run_start(log: LogView, term: u64, i: u64) -> u64
    decreases i,
{
    if i > 1 && log.term_at((i - 1) as u64) == Some(term) {
        run_start(log, term, (i - 1) as u64)
    } else {
        i
    }
}

// ---- counting replicas ---------------------------------------------------

/// How many values are at least `v`.
pub open spec fn at_least(values: Seq<u64>, v: u64) -> nat
    decreases values.len(),
{
    if values.len() == 0 {
        0
    } else {
        at_least(values.drop_last(), v) + (if values.last() >= v {
            1nat
        } else {
            0
        })
    }
}

/// The largest of the first `n` values that at least `q` values reach.
pub open spec fn reached_by(values: Seq<u64>, q: nat, n: int) -> u64
    decreases n,
{
    if n <= 0 {
        0
    } else {
        let rest = reached_by(values, q, n - 1);
        let v = values[n - 1];
        if v > rest && at_least(values, v) >= q {
            v
        } else {
            rest
        }
    }
}

/// A map's value, or zero where there is none.
pub open spec fn or_zero(m: Map<u32, u64>, k: u32) -> u64 {
    if m.contains_key(k) {
        m[k]
    } else {
        0
    }
}

/// A map's value, or one where there is none or it is zero.
pub open spec fn or_one(m: Map<u32, u64>, k: u32) -> u64 {
    if m.contains_key(k) && m[k] > 1 {
        m[k]
    } else {
        1
    }
}

/// The map that gives each of a list of nodes the same value.
pub open spec fn all_at(m: Map<u32, u64>, nodes: Seq<NodeId>, v: u64) -> Map<u32, u64>
    decreases nodes.len(),
{
    if nodes.len() == 0 {
        m
    } else {
        all_at(m, nodes.drop_last(), v).insert(nodes.last().0, v)
    }
}

/// The sequence number of the next hard state: one whose slot is not the slot
/// of the newest state known to be durable.
pub open spec fn next_seq(state_seq: u64, durable_seq: u64) -> u64 {
    if state_seq % 2 == durable_seq % 2 {
        bump(state_seq)
    } else {
        state_seq
    }
}

/// The part of a log that a write from index `from` on covers.
pub open spec fn tail_from(log: LogView, from: u64) -> Seq<EntryView> {
    if from <= 1 {
        log.entries
    } else if from - 1 >= log.entries.len() {
        Seq::empty()
    } else {
        log.entries.skip(from - 1)
    }
}

/// The longest prefix of entries with a term of at most `term`.
pub open spec fn up_to_term(es: Seq<EntryView>, term: u64) -> Seq<EntryView>
    decreases es.len(),
{
    if es.len() == 0 || es.last().term <= term {
        es
    } else {
        up_to_term(es.drop_last(), term)
    }
}

impl RaftView {
    /// What holds of every node: its log is in order and starts at the
    /// beginning, and it is a member of its cluster.
    pub open spec fn wf(self) -> bool {
        &&& self.log.wf()
        &&& self.log.snapshot_index == 0
        &&& self.log.snapshot_term == 0
        &&& self.members.contains(self.id)
    }

    pub open spec fn quorum(self) -> nat {
        majority(self.members.len())
    }

    pub open spec fn peers(self) -> Seq<NodeId> {
        members_but(self.members, self.id)
    }

    /// Highest log index this node knows to be on stable storage together with
    /// the term that authorised it: recovery discards entries ahead of the hard
    /// state.
    pub open spec fn durable_index(self) -> u64 {
        least(self.synced_index, self.log.last_index_with_term_at_most(self.durable_term))
    }

    /// The world after a message was handed to `send`. A message that carries a
    /// term this node could still forget is withheld: to whoever waits for it,
    /// it looks lost, and they will ask again.
    pub open spec fn send(self, io: IoState, to: NodeId, msg: RaftMsgView) -> IoState {
        if msg.term() > self.durable_term && self.cfg.bug != InjectedBug::VoteBeforeSync {
            io
        } else {
            io.did(Effect::Send { to, payload: MessageView::Raft(msg).wire() })
        }
    }

    /// The election timer set anew to a random delay.
    pub open spec fn reset_election_timer(self, io: IoState) -> Stepped {
        let (delay, rng) = self.rng.range_of(
            self.cfg.election_timeout.0,
            self.cfg.election_timeout.1,
        );
        let (timer, out) = self.election_timer.armed(io, delay, TIMER_ELECTION);
        Stepped { raft: RaftView { rng, election_timer: timer, ..self }, io: out }
    }

    /// The heartbeat timer set anew.
    pub open spec fn reset_heartbeat_timer(self, io: IoState) -> Stepped {
        let (timer, out) = self.heartbeat_timer.armed(
            io,
            self.cfg.heartbeat_interval,
            TIMER_HEARTBEAT,
        );
        Stepped { raft: RaftView { heartbeat_timer: timer, ..self }, io: out }
    }

    // ---- persistence -----------------------------------------------------

    /// A batch begun; its id is `self.persister.fresh()`.
    pub open spec fn begin(self, action: Persist, span: Span) -> RaftView {
        RaftView { persister: self.persister.start(action, span), ..self }
    }

    /// The hard state written for a batch.
    pub open spec fn write_hard_state(self, io: IoState, batch: u64) -> Stepped {
        let seq = next_seq(self.state_seq, self.durable_seq);
        let hs = HardState { term: self.term, voted_for: self.voted_for, seq };
        Stepped {
            raft: RaftView {
                state_seq: bump(seq),
                persister: self.persister.note_state(batch, self.term, seq).note_write(
                    batch,
                    io.op(),
                ),
                ..self
            },
            io: io.did(
                Effect::WriteAt {
                    file: FILE_WAL,
                    offset: offset_of_slot(seq) as usize,
                    bytes: hs.slot(),
                },
            ),
        }
    }

    /// The file length set for a batch.
    pub open spec fn write_len(self, io: IoState, batch: u64, len: usize) -> Stepped {
        Stepped {
            raft: RaftView { persister: self.persister.note_write(batch, io.op()), ..self },
            io: io.did(Effect::SetLen { file: FILE_WAL, len }),
        }
    }

    /// The log from an index on written for a batch. A stale suffix is dropped
    /// first; with nothing to write, setting the length keeps the sequencing
    /// uniform.
    pub open spec fn write_log_from(
        self,
        io: IoState,
        batch: u64,
        from: u64,
        truncated: bool,
    ) -> Stepped {
        let offset = capped(LOG_REGION + self.log.byte_offset_of(from));
        let s = if truncated {
            self.write_len(io, batch, offset)
        } else {
            Stepped { raft: self, io }
        };
        let bytes = records(tail_from(self.log, from));
        if bytes.len() == 0 {
            s.raft.write_len(s.io, batch, offset)
        } else {
            Stepped {
                raft: RaftView {
                    persister: s.raft.persister.note_write(batch, s.io.op()),
                    ..s.raft
                },
                io: s.io.did(Effect::WriteAt { file: FILE_WAL, offset, bytes }),
            }
        }
    }

    /// The log from an index on made durable, and someone told.
    pub open spec fn persist_log_from(
        self,
        io: IoState,
        from: u64,
        truncated: bool,
        reply_to: Option<NodeId>,
        reply_term: u64,
        span: Span,
    ) -> Stepped {
        let batch = self.persister.fresh();
        self.begin(
            Persist::LogDurable { index: self.log.last_index(), reply_to, reply_term },
            span,
        ).write_log_from(io, batch, from, truncated)
    }

    /// The hard state made durable, with something to do then.
    pub open spec fn persist_state(self, io: IoState, action: Persist, span: Span) -> Stepped {
        let batch = self.persister.fresh();
        self.begin(action, span).write_hard_state(io, batch)
    }

    // ---- elections -------------------------------------------------------

    /// This node stands for election in the next term.
    #[verifier::opaque]
    pub open spec fn become_candidate(self, io: IoState) -> Stepped {
        if self.term == u64::MAX {
            Stepped { raft: self, io }
        } else {
            let term = (self.term + 1) as u64;
            let r = RaftView {
                term,
                voted_for: Some(self.id),
                role: Role::Candidate,
                leader: None,
                votes: Set::<u32>::empty().insert(self.id.0),
                stats: RaftStats {
                    elections_started: bump(self.stats.elections_started),
                    ..self.stats
                },
                ..self
            };
            let out = io.observe("campaign"@, seq![term]).trace(
                Level::Info,
                "raft"@,
                "standing for election in term "@ + decimal(term as nat),
            );
            let s = r.persist_state(out, Persist::Campaign { term }, Span::blank());
            s.raft.reset_election_timer(s.io)
        }
    }

    /// This node follows a later term.
    #[verifier::opaque]
    pub open spec fn step_down(self, io: IoState, term: u64) -> Stepped {
        let (stats, out) = if self.role != Role::Follower {
            (
                RaftStats { step_downs: bump(self.stats.step_downs), ..self.stats },
                io.trace(
                    Level::Info,
                    "raft"@,
                    "stepping down: saw term "@ + decimal(term as nat) + " while "@
                        + self.role.label(),
                ),
            )
        } else {
            (self.stats, io)
        };
        RaftView {
            stats,
            term,
            voted_for: None,
            role: Role::Follower,
            leader: None,
            votes: Set::empty(),
            heartbeat_timer: self.heartbeat_timer.unset(),
            ..self
        }.reset_election_timer(self.heartbeat_timer.disarmed(out))
    }

    pub open spec fn step_down_and_persist(self, io: IoState, term: u64) -> Stepped {
        let s = self.step_down(io, term);
        s.raft.persist_state(s.io, Persist::Quiet, Span::blank())
    }

    /// A vote request of a term that is not stale.
    pub open spec fn consider_vote(
        self,
        io: IoState,
        from: NodeId,
        term: u64,
        candidate: NodeId,
        last_index: u64,
        last_term: u64,
    ) -> Stepped {
        let newer = term > self.term;
        let s = if newer {
            self.step_down(io, term)
        } else {
            Stepped { raft: self, io }
        };
        let free = s.raft.voted_for is None || s.raft.voted_for == Some(candidate);
        let recent = s.raft.log.is_up_to_date(last_index, last_term);
        let granted = free && recent;
        let dirty = newer || (granted && s.raft.voted_for != Some(candidate));
        let t = if granted {
            RaftView { voted_for: Some(candidate), ..s.raft }.reset_election_timer(s.io)
        } else {
            s
        };
        let out = t.io.trace(
            Level::Debug,
            "raft"@,
            "vote request from "@ + candidate.label() + " term="@ + decimal(term as nat)
                + " granted="@ + truth(granted) + " (up_to_date="@ + truth(recent) + ", free="@
                + truth(free) + ")"@,
        );
        let reply = RaftMsgView::RequestVoteResp { term: t.raft.term, granted };
        if dirty && self.cfg.bug != InjectedBug::VoteBeforeSync {
            t.raft.persist_state(
                out,
                Persist::VoteReply { to: from, term: t.raft.term, granted },
                Span::blank(),
            )
        } else if dirty {
            let u = t.raft.persist_state(out, Persist::Quiet, Span::blank());
            Stepped { raft: u.raft, io: u.raft.send(u.io, from, reply) }
        } else {
            Stepped { raft: t.raft, io: t.raft.send(out, from, reply) }
        }
    }

    #[verifier::opaque]
    pub open spec fn on_request_vote(
        self,
        io: IoState,
        from: NodeId,
        term: u64,
        candidate: NodeId,
        last_index: u64,
        last_term: u64,
    ) -> Stepped {
        if term < self.term {
            Stepped {
                raft: self,
                io: self.send(
                    io,
                    from,
                    RaftMsgView::RequestVoteResp { term: self.term, granted: false },
                ),
            }
        } else {
            self.consider_vote(io, from, term, candidate, last_index, last_term)
        }
    }

    #[verifier::opaque]
    pub open spec fn on_vote_resp(self, io: IoState, from: NodeId, term: u64, granted: bool) -> Stepped {
        if term > self.term {
            self.step_down_and_persist(io, term)
        } else if self.role != Role::Candidate || term != self.term || !granted {
            Stepped { raft: self, io }
        } else {
            let r = RaftView { votes: self.votes.insert(from.0), ..self };
            if r.votes.len() >= r.quorum() {
                r.become_leader(io)
            } else {
                Stepped { raft: r, io }
            }
        }
    }

    /// Whether an entry of the current term can be added to the log: an index is
    /// left, and the log has no entry of a later term.
    pub open spec fn has_room(self) -> bool {
        self.log.last_index() < u64::MAX && self.log.last_term() <= self.term
    }

    /// The entry a leader adds for a command.
    pub open spec fn own_entry(self, cmd: CommandView) -> EntryView {
        EntryView { term: self.term, index: (self.log.last_index() + 1) as u64, cmd }
    }

    /// A leader's log with one more entry, on its way to stable storage.
    pub open spec fn add_entry(self, io: IoState, cmd: CommandView) -> Stepped {
        let e = self.own_entry(cmd);
        RaftView { log: self.log.append(e), ..self }.persist_log_from(
            io,
            e.index,
            false,
            None,
            0,
            Span::of_log(e.index, u64::MAX),
        )
    }

    /// This node leads its term. It begins with a no-op: without it, entries
    /// carried over from a previous term could never reach the commit
    /// threshold, because Raft only commits by counting replicas of a
    /// *current-term* entry. A log that has no place for an entry of this term
    /// leaves the node where it was.
    #[verifier::opaque]
    pub open spec fn become_leader(self, io: IoState) -> Stepped {
        if !self.has_room() {
            Stepped { raft: self, io }
        } else {
            let next = (self.log.last_index() + 1) as u64;
            let r = RaftView {
                role: Role::Leader,
                leader: Some(self.id),
                stats: RaftStats { elections_won: bump(self.stats.elections_won), ..self.stats },
                next_index: all_at(Map::empty(), self.peers(), next),
                match_index: all_at(Map::empty(), self.peers(), NO_INDEX),
                ..self
            };
            let out = io.observe("leader"@, seq![self.term, self.log.last_index()]).trace(
                Level::Info,
                "raft"@,
                "elected leader for term "@ + decimal(self.term as nat) + " with "@ + decimal(
                    self.votes.len(),
                ) + " votes"@,
            );
            let s = r.add_entry(out, CommandView::noop());
            let quiet = RaftView {
                election_timer: s.raft.election_timer.unset(),
                ..s.raft
            };
            let t = quiet.broadcast_append(
                s.raft.election_timer.disarmed(s.io),
                quiet.peers().len() as int,
            );
            t.raft.reset_heartbeat_timer(t.io)
        }
    }

    // ---- replication -----------------------------------------------------

    /// The append that brings a peer forward.
    pub open spec fn append_for(self, to: NodeId) -> RaftMsgView {
        let next = or_one(self.next_index, to.0);
        RaftMsgView::AppendEntries {
            term: self.term,
            leader: self.id,
            prev_index: (next - 1) as u64,
            prev_term: self.log.term_at((next - 1) as u64)->Some_0,
            entries: self.log.slice_from(next, self.cfg.max_batch as nat),
            leader_commit: self.commit_index,
        }
    }

    pub open spec fn send_append_to(self, io: IoState, to: NodeId) -> Stepped {
        if self.log.term_at((or_one(self.next_index, to.0) - 1) as u64) is None {
            Stepped { raft: self, io }
        } else {
            Stepped {
                raft: RaftView {
                    stats: RaftStats {
                        appends_sent: bump(self.stats.appends_sent),
                        ..self.stats
                    },
                    ..self
                },
                io: self.send(io, to, self.append_for(to)),
            }
        }
    }

    /// An append to each of the first `n` peers.
    pub open spec fn broadcast_append(self, io: IoState, n: int) -> Stepped
        decreases n,
    {
        if n <= 0 {
            Stepped { raft: self, io }
        } else {
            let s = self.broadcast_append(io, n - 1);
            s.raft.send_append_to(s.io, self.peers()[n - 1])
        }
    }

    /// Where the leader should back up to, given that `prev_index` did not
    /// match.
    pub open spec fn conflict_hint(self, prev_index: u64) -> u64 {
        match self.log.term_at(prev_index) {
            None => bump(self.log.last_index()),
            Some(t) => if self.log.last_index() < prev_index {
                bump(self.log.last_index())
            } else {
                run_start(self.log, t, prev_index)
            },
        }
    }

    /// The log cut back to before `at`, with everything that vouched for more.
    pub open spec fn truncate(self, io: IoState, at: u64) -> Stepped {
        let cap = (at - 1) as u64;
        Stepped {
            raft: RaftView {
                stats: RaftStats {
                    truncations: bump(self.stats.truncations),
                    truncated_committed: if at <= self.commit_index {
                        bump(self.stats.truncated_committed)
                    } else {
                        self.stats.truncated_committed
                    },
                    ..self.stats
                },
                log: self.log.truncate_from(at),
                synced_index: least(self.synced_index, cap),
                parked: parked_below(self.parked, cap),
                persister: self.persister.clamp_all(cap),
                ..self
            },
            io: io.trace(
                Level::Info,
                "raft"@,
                "truncating log from index "@ + decimal(at as nat) + " (had "@ + decimal(
                    self.log.last_index() as nat,
                ) + ")"@,
            ).observe("truncate"@, seq![at]),
        }
    }

    /// This node follows the leader it heard from.
    #[verifier::opaque]
    pub open spec fn heed_leader(self, io: IoState, term: u64, leader: NodeId) -> Stepped {
        let s = if term > self.term {
            self.step_down(io, term)
        } else {
            Stepped { raft: self, io }
        };
        // A candidate that hears from a leader of its own term concedes.
        let t = if s.raft.role != Role::Follower {
            Stepped {
                raft: RaftView {
                    role: Role::Follower,
                    votes: Set::empty(),
                    heartbeat_timer: s.raft.heartbeat_timer.unset(),
                    ..s.raft
                },
                io: s.raft.heartbeat_timer.disarmed(s.io),
            }
        } else {
            s
        };
        RaftView { leader: Some(leader), ..t.raft }.reset_election_timer(t.io)
    }

    /// An append whose previous entry this node does not have.
    pub open spec fn reject_append(
        self,
        io: IoState,
        from: NodeId,
        prev_index: u64,
        prev_term: u64,
        dirty: bool,
    ) -> Stepped {
        let hint = self.conflict_hint(prev_index);
        let out = io.trace(
            Level::Debug,
            "raft"@,
            "rejecting append prev=("@ + decimal(prev_index as nat) + ","@ + decimal(
                prev_term as nat,
            ) + "); my last=("@ + decimal(self.log.last_index() as nat) + ","@ + decimal(
                self.log.last_term() as nat,
            ) + ") hint="@ + decimal(hint as nat),
        );
        if dirty {
            self.persist_state(out, Persist::Quiet, Span::blank())
        } else {
            Stepped {
                raft: self,
                io: self.send(
                    out,
                    from,
                    RaftMsgView::AppendEntriesResp {
                        term: self.term,
                        success: false,
                        match_index: self.durable_index(),
                        conflict_index: hint,
                    },
                ),
            }
        }
    }

    /// What is to be changed in the log for an append: the first entry that is
    /// new, and where the log must be cut first.
    pub open spec fn append_plan(self, prev_index: u64, entries: Seq<EntryView>) -> (
        Option<int>,
        Option<u64>,
    ) {
        let (new, cut) = first_new(self.log, prev_index, entries, 0);
        let last = capped_u64(prev_index + entries.len());
        if self.cfg.bug == InjectedBug::TruncateOnAnyAppend && new is None
            && self.log.last_index() > last {
            (Some(entries.len() as int), Some((last + 1) as u64))
        } else {
            (new, cut)
        }
    }

    /// New entries put in the log and on their way to stable storage.
    #[verifier::opaque]
    pub open spec fn store_entries(
        self,
        io: IoState,
        from: NodeId,
        prev_index: u64,
        entries: Seq<EntryView>,
        i: int,
        cut: Option<u64>,
        dirty: bool,
    ) -> Stepped {
        let last = capped_u64(prev_index + entries.len());
        let start = capped_u64(prev_index + 1 + i);
        let s = match cut {
            Some(at) => self.truncate(io, at),
            None => Stepped { raft: self, io },
        };
        let tail = entries.skip(i);
        let r = RaftView {
            log: s.raft.log.append_all(tail),
            stats: RaftStats {
                entries_replicated: capped_u64(s.raft.stats.entries_replicated + tail.len()),
                ..s.raft.stats
            },
            ..s.raft
        };
        let batch = r.persister.fresh();
        let begun = r.begin(
            Persist::LogDurable {
                index: r.log.last_index(),
                reply_to: Some(from),
                reply_term: r.term,
            },
            Span::of_log(
                if tail.len() > 0 {
                    start
                } else {
                    0
                },
                last,
            ),
        );
        // One sync orders the term update ahead of the entries it authorises.
        let t = if dirty {
            begun.write_hard_state(s.io, batch)
        } else {
            Stepped { raft: begun, io: s.io }
        };
        let u = t.raft.write_log_from(t.io, batch, start, cut is Some);
        if self.cfg.bug == InjectedBug::AckBeforeSync {
            Stepped {
                raft: u.raft,
                io: u.raft.send(
                    u.io,
                    from,
                    RaftMsgView::AppendEntriesResp {
                        term: u.raft.term,
                        success: true,
                        match_index: last,
                        conflict_index: NO_INDEX,
                    },
                ),
            }
        } else {
            u
        }
    }

    /// An append that brings nothing new. What it proved to agree is
    /// acknowledged as far as it is durable.
    pub open spec fn confirm_append(self, io: IoState, from: NodeId, last: u64, dirty: bool) -> Stepped {
        if dirty {
            self.persist_state(
                io,
                Persist::LogDurable {
                    index: self.durable_index(),
                    reply_to: Some(from),
                    reply_term: self.term,
                },
                Span::of_log(0, last),
            )
        } else {
            Stepped {
                raft: self,
                io: self.send(
                    io,
                    from,
                    RaftMsgView::AppendEntriesResp {
                        term: self.term,
                        success: true,
                        match_index: least(self.durable_index(), last),
                        conflict_index: NO_INDEX,
                    },
                ),
            }
        }
    }

    /// The commit index moved up to what the leader has committed, as far as
    /// this append vouches for it.
    pub open spec fn follow_commit(self, io: IoState, leader_commit: u64, last: u64) -> Stepped {
        let commit = least(least(leader_commit, last), self.log.last_index());
        if commit > self.commit_index {
            Stepped {
                raft: RaftView { commit_index: commit, ..self },
                io: io.observe("commit"@, seq![commit]),
            }
        } else {
            Stepped { raft: self, io }
        }
    }

    /// An append whose previous entry this node has.
    #[verifier::opaque]
    pub open spec fn take_append(
        self,
        io: IoState,
        from: NodeId,
        prev_index: u64,
        prev_term: u64,
        entries: Seq<EntryView>,
        leader_commit: u64,
        dirty: bool,
    ) -> Stepped {
        let last = capped_u64(prev_index + entries.len());
        let (new, cut) = self.append_plan(prev_index, entries);
        match new {
            Some(i) => {
                let floor = if i == 0 {
                    prev_term
                } else {
                    entries[i - 1].term
                };
                if !follow_on(prev_index, floor, entries, i) {
                    // Entries that cannot stand in a log: no leader sends them.
                    let r = RaftView {
                        stats: RaftStats {
                            bad_messages: bump(self.stats.bad_messages),
                            ..self.stats
                        },
                        ..self
                    };
                    if dirty {
                        r.persist_state(io, Persist::Quiet, Span::blank())
                    } else {
                        Stepped { raft: r, io }
                    }
                } else {
                    let s = self.store_entries(io, from, prev_index, entries, i, cut, dirty);
                    s.raft.follow_commit(s.io, leader_commit, last)
                }
            },
            None => {
                let s = self.confirm_append(io, from, last, dirty);
                s.raft.follow_commit(s.io, leader_commit, last)
            },
        }
    }

    #[verifier::opaque]
    pub open spec fn on_append_entries(
        self,
        io: IoState,
        from: NodeId,
        term: u64,
        leader: NodeId,
        prev_index: u64,
        prev_term: u64,
        entries: Seq<EntryView>,
        leader_commit: u64,
    ) -> Stepped {
        if term < self.term {
            Stepped {
                raft: self,
                io: self.send(
                    io,
                    from,
                    RaftMsgView::AppendEntriesResp {
                        term: self.term,
                        success: false,
                        match_index: NO_INDEX,
                        conflict_index: NO_INDEX,
                    },
                ),
            }
        } else {
            let dirty = term > self.term;
            let s = self.heed_leader(io, term, leader);
            if s.raft.log.matches(prev_index, prev_term) {
                s.raft.take_append(
                    s.io,
                    from,
                    prev_index,
                    prev_term,
                    entries,
                    leader_commit,
                    dirty,
                )
            } else {
                s.raft.reject_append(s.io, from, prev_index, prev_term, dirty)
            }
        }
    }

    /// What each of the first `n` members is known to hold durably.
    pub open spec fn replicated(self, n: int) -> Seq<u64>
        decreases n,
    {
        if n <= 0 {
            Seq::empty()
        } else {
            let m = self.members[n - 1];
            self.replicated(n - 1).push(
                if m == self.id {
                    self.durable_index()
                } else {
                    or_zero(self.match_index, m.0)
                },
            )
        }
    }

    /// The highest index a quorum holds durably.
    pub open spec fn quorum_index(self) -> u64 {
        let n = self.members.len() as int;
        reached_by(self.replicated(n), self.quorum(), n)
    }

    /// The commit index moved up to what a quorum holds. A leader may only
    /// commit by counting replicas of an entry from its *own* term: counting an
    /// older entry's replicas can commit something a later leader will
    /// overwrite.
    #[verifier::opaque]
    pub open spec fn maybe_commit(self, io: IoState) -> Stepped {
        let c = self.quorum_index();
        if c > self.commit_index && (self.log.term_at(c) == Some(self.term) || (self.cfg.bug
            == InjectedBug::CommitAnyTerm && self.log.term_at(c) is Some)) {
            Stepped {
                raft: RaftView { commit_index: c, ..self },
                io: io.observe("commit"@, seq![c]).trace(
                    Level::Debug,
                    "raft"@,
                    "commit index advanced to "@ + decimal(c as nat),
                ),
            }
        } else {
            Stepped { raft: self, io }
        }
    }

    #[verifier::opaque]
    pub open spec fn on_append_resp(
        self,
        io: IoState,
        from: NodeId,
        term: u64,
        success: bool,
        match_index: u64,
        conflict_index: u64,
    ) -> Stepped {
        if term > self.term {
            self.step_down_and_persist(io, term)
        } else if self.role != Role::Leader || term != self.term {
            Stepped { raft: self, io }
        } else if success {
            // Responses can arrive out of order; the match only ever grows.
            let known = or_zero(self.match_index, from.0);
            let m = if match_index > known {
                match_index
            } else {
                known
            };
            let s = RaftView {
                match_index: self.match_index.insert(from.0, m),
                next_index: self.next_index.insert(from.0, bump(m)),
                ..self
            }.maybe_commit(io);
            if m < s.raft.log.last_index() {
                s.raft.send_append_to(s.io, from)
            } else {
                s
            }
        } else {
            let cur = if self.next_index.contains_key(from.0) {
                self.next_index[from.0]
            } else {
                1
            };
            let hint = if conflict_index > 1 {
                conflict_index
            } else {
                1
            };
            let back = if cur > 1 {
                (cur - 1) as u64
            } else {
                0
            };
            let next = if least(hint, back) > 1 {
                least(hint, back)
            } else {
                1
            };
            RaftView { next_index: self.next_index.insert(from.0, next), ..self }.send_append_to(
                io,
                from,
            )
        }
    }

    // ---- durability ------------------------------------------------------

    /// What a finished batch has made durable: its hard state, and its part of
    /// the log where nothing below it is missing.
    #[verifier::opaque]
    pub open spec fn settle(self, io: IoState, action: Persist, span: Span) -> Stepped {
        let r = RaftView {
            durable_term: if span.term > self.durable_term {
                span.term
            } else {
                self.durable_term
            },
            durable_seq: if span.seq > self.durable_seq {
                span.seq
            } else {
                self.durable_seq
            },
            ..self
        };
        let q = match action {
            Persist::LogDurable { index, .. } => {
                let last = least(index, r.log.last_index());
                if span.first > 0 && span.first <= last {
                    let (synced, parked) = absorbed(
                        r.synced_index,
                        r.parked.push((span.first, last)),
                    );
                    RaftView { synced_index: synced, parked, ..r }
                } else {
                    r
                }
            },
            _ => r,
        };
        Stepped {
            raft: q,
            io: if q.durable_index() > self.durable_index() {
                io.observe("durable"@, seq![q.durable_index()])
            } else {
                io
            },
        }
    }

    /// A message to each of the first `n` peers.
    pub open spec fn send_all(self, io: IoState, msg: RaftMsgView, n: int) -> IoState
        decreases n,
    {
        if n <= 0 {
            io
        } else {
            self.send(self.send_all(io, msg, n - 1), self.peers()[n - 1], msg)
        }
    }

    /// What a finished batch allows this node to say.
    #[verifier::opaque]
    pub open spec fn on_durable(self, io: IoState, action: Persist, span: Span) -> Stepped {
        match action {
            Persist::Campaign { term } => if self.term == term && self.role == Role::Candidate {
                let msg = RaftMsgView::RequestVote {
                    term,
                    candidate: self.id,
                    last_index: self.log.last_index(),
                    last_term: self.log.last_term(),
                };
                let out = self.send_all(io, msg, self.peers().len() as int);
                // A single-node cluster elects itself here.
                if self.votes.len() >= self.quorum() {
                    self.become_leader(out)
                } else {
                    Stepped { raft: self, io: out }
                }
            } else {
                Stepped { raft: self, io }
            },
            Persist::VoteReply { to, term, granted } => Stepped {
                raft: self,
                io: self.send(io, to, RaftMsgView::RequestVoteResp { term, granted }),
            },
            Persist::LogDurable { reply_to, reply_term, .. } => {
                let out = match reply_to {
                    // Only what is durable *and* known to agree is claimed.
                    Some(to) => self.send(
                        io,
                        to,
                        RaftMsgView::AppendEntriesResp {
                            term: reply_term,
                            success: true,
                            match_index: least(self.durable_index(), span.agreed),
                            conflict_index: NO_INDEX,
                        },
                    ),
                    None => io,
                };
                if self.role == Role::Leader {
                    self.maybe_commit(out)
                } else {
                    Stepped { raft: self, io: out }
                }
            },
            Persist::Quiet => Stepped { raft: self, io },
        }
    }

    // ---- events ----------------------------------------------------------

    pub open spec fn on_storage(self, io: IoState, op: OpId, ok: bool) -> Stepped {
        if self.failed {
            Stepped { raft: self, io }
        } else {
            let (persister, event, span) = self.persister.complete(op, ok);
            let r = RaftView { persister, ..self };
            match event {
                BatchEvent::Nothing => Stepped { raft: r, io },
                BatchEvent::Failed => Stepped {
                    raft: RaftView { failed: true, ..r },
                    io: io.trace(
                        Level::Error,
                        "raft"@,
                        "storage failure; node is going down"@,
                    ).observe("io_failed"@, Seq::empty()),
                },
                BatchEvent::NeedSync(id) => Stepped {
                    raft: RaftView { persister: r.persister.note_sync(id, io.op()), ..r },
                    io: io.did(Effect::Sync { file: FILE_WAL }),
                },
                BatchEvent::Done(action) => {
                    let s = r.settle(io, action, span);
                    s.raft.on_durable(s.io, action, span)
                },
            }
        }
    }

    pub open spec fn on_timer(self, io: IoState, tag: TimerTag) -> Stepped {
        if self.failed {
            Stepped { raft: self, io }
        } else if tag == TIMER_ELECTION {
            let r = RaftView { election_timer: self.election_timer.unset(), ..self };
            if self.election_timer.handle is None || self.role == Role::Leader {
                Stepped { raft: r, io }
            } else {
                r.become_candidate(io)
            }
        } else if tag == TIMER_HEARTBEAT {
            let r = RaftView { heartbeat_timer: self.heartbeat_timer.unset(), ..self };
            if self.heartbeat_timer.handle is None || self.role != Role::Leader {
                Stepped { raft: r, io }
            } else {
                let s = r.broadcast_append(io, r.peers().len() as int);
                s.raft.reset_heartbeat_timer(s.io)
            }
        } else {
            Stepped { raft: self, io }
        }
    }

    pub open spec fn on_message(self, io: IoState, from: NodeId, msg: RaftMsgView) -> Stepped {
        if self.failed {
            Stepped { raft: self, io }
        } else {
            match msg {
                RaftMsgView::RequestVote { term, candidate, last_index, last_term } => {
                    self.on_request_vote(io, from, term, candidate, last_index, last_term)
                },
                RaftMsgView::RequestVoteResp { term, granted } => self.on_vote_resp(
                    io,
                    from,
                    term,
                    granted,
                ),
                RaftMsgView::AppendEntries {
                    term,
                    leader,
                    prev_index,
                    prev_term,
                    entries,
                    leader_commit,
                } => self.on_append_entries(
                    io,
                    from,
                    term,
                    leader,
                    prev_index,
                    prev_term,
                    entries,
                    leader_commit,
                ),
                RaftMsgView::AppendEntriesResp { term, success, match_index, conflict_index } => {
                    self.on_append_resp(io, from, term, success, match_index, conflict_index)
                },
            }
        }
    }

    /// Whether this node takes commands, and has room for one.
    pub open spec fn accepts_commands(self) -> bool {
        self.role == Role::Leader && !self.failed && self.has_room()
    }

    pub open spec fn propose(self, io: IoState, cmd: CommandView) -> Stepped {
        if !self.accepts_commands() {
            Stepped { raft: self, io }
        } else {
            let s = self.add_entry(io, cmd);
            s.raft.broadcast_append(s.io, s.raft.peers().len() as int)
        }
    }

    /// How far entries can be handed to the state machine: to the commit index,
    /// or to the end of the log where that is shorter.
    pub open spec fn apply_limit(self) -> u64 {
        least(self.commit_index, self.log.last_index())
    }

    /// The entries that were committed and not yet handed out.
    pub open spec fn applicable(self) -> Seq<EntryView> {
        if self.last_applied < self.apply_limit() {
            self.log.entries.subrange(self.last_applied as int, self.apply_limit() as int)
        } else {
            Seq::empty()
        }
    }

    pub open spec fn take_applied(self) -> RaftView {
        if self.last_applied < self.apply_limit() {
            RaftView { last_applied: self.apply_limit(), ..self }
        } else {
            self
        }
    }

    // ---- recovery --------------------------------------------------------

    /// The log bytes of a write-ahead file.
    pub open spec fn log_bytes(file: Seq<u8>) -> Seq<u8> {
        if file.len() > LOG_REGION {
            file.skip(LOG_REGION as int)
        } else {
            Seq::empty()
        }
    }

    /// A node just after its file was read: entries whose term exceeds the
    /// durable term were never acknowledged, and are dropped.
    pub open spec fn loaded(
        file: Seq<u8>,
        id: NodeId,
        members: Seq<NodeId>,
        cfg: RaftConfig,
        seed: u64,
    ) -> RaftView {
        let hs = recovered_state(file);
        let found = recovered(RaftView::log_bytes(file), 1);
        let log = LogView::empty().append_all(up_to_term(found.entries, hs.term));
        RaftView {
            id,
            members,
            cfg,
            role: Role::Follower,
            term: hs.term,
            voted_for: hs.voted_for,
            log,
            commit_index: NO_INDEX,
            last_applied: NO_INDEX,
            leader: None,
            votes: Set::empty(),
            next_index: Map::empty(),
            match_index: Map::empty(),
            synced_index: log.last_index(),
            parked: Seq::empty(),
            durable_term: hs.term,
            durable_seq: hs.seq,
            state_seq: bump(hs.seq),
            persister: PersisterView::blank(),
            election_timer: Deadline::idle(),
            heartbeat_timer: Deadline::idle(),
            rng: Rng::seeded(seed),
            failed: false,
            stats: RaftStats::zero(),
        }
    }

    /// Whether anything in a file had to be discarded.
    pub open spec fn was_damaged(file: Seq<u8>) -> bool {
        let found = recovered(RaftView::log_bytes(file), 1);
        found.damaged || up_to_term(found.entries, recovered_state(file).term).len()
            < found.entries.len()
    }

    /// A node started (or restarted) from whatever is on its disk. A damaged
    /// file is cut back to the prefix that is trusted.
    pub open spec fn recover(
        io: IoState,
        id: NodeId,
        members: Seq<NodeId>,
        cfg: RaftConfig,
        seed: u64,
    ) -> Stepped {
        let file = io.file(FILE_WAL);
        let r = RaftView::loaded(file, id, members, cfg, seed);
        let damaged = RaftView::was_damaged(file);
        let cut = if damaged {
            io.did(
                Effect::SetLen { file: FILE_WAL, len: capped(LOG_REGION + r.log.end) },
            ).did(Effect::Sync { file: FILE_WAL })
        } else {
            io
        };
        let out = cut.observe(
            "recover"@,
            seq![r.term, r.log.last_index(), r.durable_index()],
        ).trace(
            Level::Info,
            "raft"@,
            "recovered term="@ + decimal(r.term as nat) + " vote="@ + shown_vote(r.voted_for)
                + " log="@ + decimal(r.log.last_index() as nat) + " durable="@ + decimal(
                r.durable_index() as nat,
            ) + " damaged="@ + truth(damaged),
        );
        r.reset_election_timer(out)
    }
}

} // verus!
