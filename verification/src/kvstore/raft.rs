//! Raft, implemented against [`crate::sim_io`] so it can be run inside the
//! simulator.
//!
//! The interesting part of this file is not the state machine -- that follows
//! the paper -- but the *persistence discipline*, which is where real
//! implementations quietly go wrong:
//!
//! * A node never acts on a write until the `fsync` covering it has completed.
//!   Every reply that depends on durable state is deferred behind a batch of
//!   `write -> confirm -> sync -> confirm` completions.
//! * The current term, the vote and the log all live in one file, so a single
//!   sync orders them relative to each other. Two files with two syncs would
//!   allow a crash to keep the log entry and lose the term that authorised it,
//!   which is enough to elect two leaders in one term.
//! * A batch claims durable only what it wrote itself, and only where nothing
//!   below is missing: an `fsync` vouches for no earlier write that failed.
//! * No message reveals a term that a crash could still take back.
//! * A write error is fatal. A node that cannot persist cannot participate,
//!   so it stops rather than answering from memory it may lose.
//!
//! Not implemented, deliberately: membership changes and lease-based reads.

pub use crate::kvstore::bug::InjectedBug;
pub use crate::kvstore::persist::{Batch, BatchEvent, OpKind, Persist, Persister, Span};
pub use crate::kvstore::raft_model::{
    RaftConfig, RaftStats, Role, LOG_REGION, TIMER_ELECTION, TIMER_HEARTBEAT,
};
pub use crate::kvstore::wire::RaftMsg;

use crate::bytes::copy_range;
use crate::count::{add_capped, capped_u64, count_up};
use crate::kvstore::log::{
    capped, contiguous, copy_entries, entry_views, law_append_keeps_wf, lemma_last_index, lemma_truncate_wf,
    Command, Entry, EntryView, LogView, RaftLog, NO_INDEX,
};
use crate::kvstore::raft_model::{
    absorbed, all_at, at_least, first_new, follow_on, joining, least, members_but, parked_below, reached_by,
    run_start, tail_from, truth, up_to_term, RaftView, Stepped,
};
use crate::kvstore::recovery::{records, recover_hard_state, recover_log, recovered, HardState};
use crate::kvstore::wire::Message;
use crate::sim_io::clock::{Deadline, TimerTag};
use crate::sim_io::storage::FILE_WAL;
use crate::sim_io::Io;
use crate::simcore::disk::OpId;
use crate::simcore::rng::Rng;
use crate::simcore::trace::Level;
use crate::simcore::NodeId;
use crate::text::{own, put_num};
use std::collections::{BTreeMap, BTreeSet};
use vstd::prelude::*;

verus! {

/// One node of a Raft cluster.
#[derive(Debug)]
pub struct Raft {
    id: NodeId,
    members: Vec<NodeId>,
    cfg: RaftConfig,
    role: Role,
    term: u64,
    voted_for: Option<NodeId>,
    log: RaftLog,
    commit_index: u64,
    last_applied: u64,
    leader: Option<NodeId>,
    votes: BTreeSet<u32>,
    next_index: BTreeMap<u32, u64>,
    match_index: BTreeMap<u32, u64>,
    /// Highest index such that every entry up to it is known to be synced.
    synced_index: u64,
    /// Ranges of the log that were synced before what lies below them.
    parked: Vec<(u64, u64)>,
    /// Highest term known to be on stable storage.
    durable_term: u64,
    /// Sequence number of the newest hard state known to be on stable storage.
    durable_seq: u64,
    /// Sequence number for the next hard-state slot write.
    state_seq: u64,
    persister: Persister,
    election_timer: Deadline,
    heartbeat_timer: Deadline,
    rng: Rng,
    failed: bool,
    stats: RaftStats,
}

impl View for Raft {
    type V = RaftView;

    closed spec fn view(&self) -> RaftView {
        RaftView {
            id: self.id,
            members: self.members@,
            cfg: self.cfg,
            role: self.role,
            term: self.term,
            voted_for: self.voted_for,
            log: self.log@,
            commit_index: self.commit_index,
            last_applied: self.last_applied,
            leader: self.leader,
            votes: self.votes@,
            next_index: self.next_index@,
            match_index: self.match_index@,
            synced_index: self.synced_index,
            parked: self.parked@,
            durable_term: self.durable_term,
            durable_seq: self.durable_seq,
            state_seq: self.state_seq,
            persister: self.persister@,
            election_timer: self.election_timer,
            heartbeat_timer: self.heartbeat_timer,
            rng: self.rng,
            failed: self.failed,
            stats: self.stats,
        }
    }
}

// ---- helpers -------------------------------------------------------------

fn min_u64(a: u64, b: u64) -> (r: u64)
    ensures
        r == least(a, b),
{
    if a < b {
        a
    } else {
        b
    }
}

fn truth_str(b: bool) -> (r: &'static str)
    ensures
        r@ == truth(b),
{
    if b {
        "true"
    } else {
        "false"
    }
}

fn region_offset(at: usize) -> (r: usize)
    ensures
        r == capped(LOG_REGION + at),
{
    if at > usize::MAX - LOG_REGION {
        usize::MAX
    } else {
        LOG_REGION + at
    }
}

/// The records of the entries from place `from` on.
fn records_from(es: &[Entry], from: usize) -> (r: Vec<u8>)
    requires
        from <= es@.len(),
    ensures
        r@ == records(entry_views(es@).skip(from as int)),
{
    let ghost all = entry_views(es@).skip(from as int);
    let mut out: Vec<u8> = Vec::new();
    let mut i: usize = from;
    while i < es.len()
        invariant
            from <= i <= es@.len(),
            all == entry_views(es@).skip(from as int),
            out@ == records(all.take(i - from)),
        decreases es@.len() - i,
    {
        let mut one = es[i].to_record();
        let ghost rec = one@;
        let ghost before = out@;
        out.append(&mut one);
        proof {
            let t = all.take(i + 1 - from);
            assert(t.drop_last() =~= all.take(i - from));
            assert(t.last() == es@[i as int]@);
            assert(out@ =~= before + rec);
        }
        i += 1;
    }
    assert(all.take(i - from) =~= all);
    out
}

/// The first entry that is new, and where the log holds another.
fn find_new(log: &RaftLog, prev_index: u64, entries: &Vec<Entry>) -> (r: (
    Option<usize>,
    Option<u64>,
))
    requires
        log@.wf(),
    ensures
        ({
            let (new, cut) = first_new(log@, prev_index, entry_views(entries@), 0);
            &&& r.1 == cut
            &&& match r.0 {
                Some(i) => new == Some(i as int) && i < entries@.len(),
                None => new is None,
            }
        }),
{
    let ghost v = entry_views(entries@);
    let mut i: usize = 0;
    while i < entries.len()
        invariant
            i <= entries@.len(),
            v == entry_views(entries@),
            log@.wf(),
            first_new(log@, prev_index, v, 0) == first_new(log@, prev_index, v, i as int),
        decreases entries@.len() - i,
    {
        let idx: u64 = add_capped(add_capped(prev_index, 1), i as u64);
        assert(v[i as int] == entries@[i as int]@);
        match log.term_at(idx) {
            Some(t) => {
                if t != entries[i].term {
                    return (Some(i), Some(idx));
                }
            },
            None => {
                return (Some(i), None);
            },
        }
        i += 1;
    }
    (None, None)
}

/// Whether the entries from place `i` on can follow one another in a log.
fn entries_follow(prev_index: u64, floor: u64, entries: &Vec<Entry>, i: usize) -> (r: bool)
    ensures
        r == follow_on(prev_index, floor, entry_views(entries@), i as int),
{
    let ghost v = entry_views(entries@);
    let mut low: u64 = floor;
    let mut k: usize = i;
    while k < entries.len()
        invariant
            i <= k,
            v == entry_views(entries@),
            follow_on(prev_index, floor, v, i as int) == follow_on(prev_index, low, v, k as int),
        decreases entries@.len() - k,
    {
        let e = &entries[k];
        assert(v[k as int] == e@);
        let idx: u64 = add_capped(add_capped(prev_index, 1), k as u64);
        let fits = prev_index < u64::MAX && k as u64 <= u64::MAX - prev_index - 1;
        if !fits || e.index != idx || e.term < low {
            return false;
        }
        low = e.term;
        k += 1;
    }
    true
}

/// The largest value that at least `q` values reach.
fn nth_largest(values: &Vec<u64>, q: usize) -> (r: u64)
    ensures
        r == reached_by(values@, q as nat, values@.len() as int),
{
    let mut best: u64 = 0;
    let mut i: usize = 0;
    while i < values.len()
        invariant
            i <= values@.len(),
            best == reached_by(values@, q as nat, i as int),
        decreases values@.len() - i,
    {
        let v: u64 = values[i];
        if v > best && count_at_least(values, v) >= q {
            best = v;
        }
        i += 1;
    }
    best
}

fn count_at_least(values: &Vec<u64>, v: u64) -> (r: usize)
    ensures
        r == at_least(values@, v),
{
    let mut count: usize = 0;
    let mut i: usize = 0;
    while i < values.len()
        invariant
            i <= values@.len(),
            count <= i,
            count == at_least(values@.take(i as int), v),
        decreases values@.len() - i,
    {
        proof {
            let t = values@.take(i + 1);
            assert(t.drop_last() =~= values@.take(i as int));
            assert(t.last() == values@[i as int]);
        }
        if values[i] >= v {
            count += 1;
        }
        i += 1;
    }
    assert(values@.take(i as int) =~= values@);
    count
}

fn copy_members(members: &Vec<NodeId>, but: NodeId) -> (r: Vec<NodeId>)
    ensures
        r@ == members_but(members@, but),
{
    let mut out: Vec<NodeId> = Vec::new();
    let mut i: usize = 0;
    while i < members.len()
        invariant
            i <= members@.len(),
            out@ == members_but(members@.take(i as int), but),
        decreases members@.len() - i,
    {
        proof {
            let t = members@.take(i + 1);
            assert(t.drop_last() =~= members@.take(i as int));
            assert(t.last() == members@[i as int]);
        }
        if members[i] != but {
            out.push(members[i]);
        }
        i += 1;
    }
    assert(members@.take(i as int) =~= members@);
    out
}

fn map_all(nodes: &Vec<NodeId>, v: u64) -> (r: BTreeMap<u32, u64>)
    ensures
        r@ == all_at(Map::empty(), nodes@, v),
{
    let mut m: BTreeMap<u32, u64> = BTreeMap::new();
    let mut i: usize = 0;
    while i < nodes.len()
        invariant
            i <= nodes@.len(),
            m@ == all_at(Map::empty(), nodes@.take(i as int), v),
        decreases nodes@.len() - i,
    {
        proof {
            let t = nodes@.take(i + 1);
            assert(t.drop_last() =~= nodes@.take(i as int));
            assert(t.last() == nodes@[i as int]);
        }
        m.insert(nodes[i].0, v);
        i += 1;
    }
    assert(nodes@.take(i as int) =~= nodes@);
    m
}

/// Absorb every parked range that joins what is synced.
fn absorb(synced: u64, parked: Vec<(u64, u64)>) -> (r: (u64, Vec<(u64, u64)>))
    ensures
        (r.0, r.1@) == absorbed(synced, parked@),
{
    let mut s: u64 = synced;
    let mut p = parked;
    loop
        invariant
            absorbed(synced, parked@) == absorbed(s, p@),
        decreases p@.len(),
    {
        let mut i: usize = 0;
        while i < p.len() && (s < u64::MAX && p[i].0 > s + 1)
            invariant
                i <= p@.len(),
                joining(p@, s, 0) == joining(p@, s, i as int),
            decreases p@.len() - i,
        {
            i += 1;
        }
        if i >= p.len() {
            return (s, p);
        }
        let (_, last) = p.remove(i);
        if last > s {
            s = last;
        }
    }
}

fn cut_parked(parked: &Vec<(u64, u64)>, cap: u64) -> (r: Vec<(u64, u64)>)
    ensures
        r@ == parked_below(parked@, cap),
{
    let mut out: Vec<(u64, u64)> = Vec::new();
    let mut i: usize = 0;
    while i < parked.len()
        invariant
            i <= parked@.len(),
            out@ == parked_below(parked@.take(i as int), cap),
        decreases parked@.len() - i,
    {
        proof {
            let t = parked@.take(i + 1);
            assert(t.drop_last() =~= parked@.take(i as int));
            assert(t.last() == parked@[i as int]);
        }
        let (first, last) = parked[i];
        if first <= cap {
            out.push((first, min_u64(last, cap)));
        }
        i += 1;
    }
    assert(parked@.take(i as int) =~= parked@);
    out
}

pub proof fn lemma_append_all_entries(log: LogView, es: Seq<EntryView>)
    ensures
        log.append_all(es).entries == log.entries + es,
        log.append_all(es).snapshot_index == log.snapshot_index,
        log.append_all(es).snapshot_term == log.snapshot_term,
    decreases es.len(),
{
    if es.len() == 0 {
        assert(log.entries + es =~= log.entries);
    } else {
        lemma_append_all_entries(log, es.drop_last());
        assert((log.entries + es.drop_last()).push(es.last()) =~= log.entries + es);
    }
}

impl Raft {
    // ---- accessors -------------------------------------------------------

    pub fn id(&self) -> (r: NodeId)
        ensures
            r == self@.id,
    {
        self.id
    }

    pub fn role(&self) -> (r: Role)
        ensures
            r == self@.role,
    {
        self.role
    }

    pub fn term(&self) -> (r: u64)
        ensures
            r == self@.term,
    {
        self.term
    }

    pub fn voted_for(&self) -> (r: Option<NodeId>)
        ensures
            r == self@.voted_for,
    {
        self.voted_for
    }

    pub fn log(&self) -> (r: &RaftLog)
        ensures
            r@ == self@.log,
    {
        &self.log
    }

    pub fn commit_index(&self) -> (r: u64)
        ensures
            r == self@.commit_index,
    {
        self.commit_index
    }

    pub fn last_applied(&self) -> (r: u64)
        ensures
            r == self@.last_applied,
    {
        self.last_applied
    }

    /// Highest log index this node knows to be on stable storage, together
    /// with the term that authorised it.
    pub fn durable_index(&self) -> (r: u64)
        requires
            self@.log.wf(),
        ensures
            r == self@.durable_index(),
    {
        min_u64(self.synced_index, self.log.last_index_with_term_at_most(self.durable_term))
    }

    /// Highest term this node knows to be on stable storage.
    pub fn durable_term(&self) -> (r: u64)
        ensures
            r == self@.durable_term,
    {
        self.durable_term
    }

    pub fn leader_hint(&self) -> (r: Option<NodeId>)
        ensures
            r == self@.leader,
    {
        self.leader
    }

    pub fn is_leader(&self) -> (r: bool)
        ensures
            r == (self@.role == Role::Leader),
    {
        self.role == Role::Leader
    }

    /// A node that hit an unrecoverable storage error. The driver is expected
    /// to take it down.
    pub fn failed(&self) -> (r: bool)
        ensures
            r == self@.failed,
    {
        self.failed
    }

    pub fn stats(&self) -> (r: RaftStats)
        ensures
            r == self@.stats,
    {
        self.stats
    }

    pub fn persists_in_flight(&self) -> (r: usize)
        ensures
            r == self@.persister.batches.len(),
    {
        self.persister.in_flight()
    }

    /// The hard state this node last wrote, or is about to.
    pub fn hard_state(&self) -> (r: HardState)
        ensures
            r == (HardState {
                term: self@.term,
                voted_for: self@.voted_for,
                seq: if self@.state_seq > 0 {
                    (self@.state_seq - 1) as u64
                } else {
                    0
                },
            }),
    {
        HardState {
            term: self.term,
            voted_for: self.voted_for,
            seq: if self.state_seq > 0 {
                self.state_seq - 1
            } else {
                0
            },
        }
    }

    fn quorum(&self) -> (r: usize)
        ensures
            r == self@.quorum(),
    {
        self.members.len() / 2 + 1
    }

    fn peers(&self) -> (r: Vec<NodeId>)
        ensures
            r@ == self@.peers(),
    {
        copy_members(&self.members, self.id)
    }

    // ---- plumbing --------------------------------------------------------

    fn send<I: Io + ?Sized>(&self, io: &mut I, to: NodeId, msg: RaftMsg)
        requires
            old(io).valid(),
        ensures
            final(io).valid(),
            final(io).origin() == old(io).origin(),
            final(io).state() == self@.send(old(io).state(), to, msg@),
    {
        if msg.term() > self.durable_term && self.cfg.bug != InjectedBug::VoteBeforeSync {
            return;
        }
        let bytes = Message::Raft(msg).encode();
        io.send(to, bytes.as_slice());
    }

    fn reset_election_timer<I: Io + ?Sized>(&mut self, io: &mut I)
        requires
            old(io).valid(),
        ensures
            final(io).valid(),
            final(io).origin() == old(io).origin(),
            (Stepped { raft: final(self)@, io: final(io).state() }) == old(
                self,
            )@.reset_election_timer(old(io).state()),
    {
        let delay: u64 = self.rng.range(self.cfg.election_timeout.0, self.cfg.election_timeout.1);
        self.election_timer.reset(io, delay, TIMER_ELECTION);
    }

    fn reset_heartbeat_timer<I: Io + ?Sized>(&mut self, io: &mut I)
        requires
            old(io).valid(),
        ensures
            final(io).valid(),
            final(io).origin() == old(io).origin(),
            (Stepped { raft: final(self)@, io: final(io).state() }) == old(
                self,
            )@.reset_heartbeat_timer(old(io).state()),
    {
        self.heartbeat_timer.reset(io, self.cfg.heartbeat_interval, TIMER_HEARTBEAT);
    }

    // ---- persistence -----------------------------------------------------

    fn write_hard_state<I: Io + ?Sized>(&mut self, io: &mut I, batch: u64)
        requires
            old(io).valid(),
        ensures
            final(io).valid(),
            final(io).origin() == old(io).origin(),
            (Stepped { raft: final(self)@, io: final(io).state() }) == old(self)@.write_hard_state(
                old(io).state(),
                batch,
            ),
    {
        // Never the slot of the newest state known to be durable: an
        // interrupted write may damage what it overwrites.
        let mut seq: u64 = self.state_seq;
        if seq % 2 == self.durable_seq % 2 {
            seq = count_up(seq);
        }
        let hs = HardState { term: self.term, voted_for: self.voted_for, seq };
        let offset: usize = HardState::slot_offset(seq);
        self.state_seq = count_up(seq);
        let slot = hs.to_slot();
        let op: u64 = io.write_at(FILE_WAL, offset, &slot);
        self.persister.note_state(batch, self.term, seq);
        self.persister.note_write(batch, op);
    }

    fn write_len<I: Io + ?Sized>(&mut self, io: &mut I, batch: u64, len: usize)
        requires
            old(io).valid(),
        ensures
            final(io).valid(),
            final(io).origin() == old(io).origin(),
            (Stepped { raft: final(self)@, io: final(io).state() }) == old(self)@.write_len(
                old(io).state(),
                batch,
                len,
            ),
    {
        let op: u64 = io.set_len(FILE_WAL, len);
        self.persister.note_write(batch, op);
    }

    fn write_log_from<I: Io + ?Sized>(&mut self, io: &mut I, batch: u64, from: u64, truncated: bool)
        requires
            old(self)@.wf(),
            old(io).valid(),
        ensures
            final(io).valid(),
            final(io).origin() == old(io).origin(),
            (Stepped { raft: final(self)@, io: final(io).state() }) == old(self)@.write_log_from(
                old(io).state(),
                batch,
                from,
                truncated,
            ),
    {
        let offset: usize = region_offset(self.log.byte_offset_of(from));
        let ghost log0 = self.log@;
        if truncated {
            // Drop the stale suffix first so a crash cannot leave a longer,
            // half-overwritten log behind.
            self.write_len(io, batch, offset);
        }
        let es = self.log.entries();
        let start: usize = if from <= 1 {
            0
        } else if from - 1 >= es.len() as u64 {
            es.len()
        } else {
            (from - 1) as usize
        };
        let bytes = records_from(es, start);
        proof {
            let v = entry_views(es@);
            assert(v.skip(start as int) =~= tail_from(log0, from));
        }
        if bytes.len() == 0 {
            // Nothing to write, but the batch still needs one operation so its
            // completion path fires.
            self.write_len(io, batch, offset);
            return;
        }
        let op: u64 = io.write_at(FILE_WAL, offset, bytes.as_slice());
        self.persister.note_write(batch, op);
    }

    fn persist_log_from<I: Io + ?Sized>(
        &mut self,
        io: &mut I,
        from: u64,
        truncated: bool,
        reply_to: Option<NodeId>,
        reply_term: u64,
        span: Span,
    )
        requires
            old(self)@.wf(),
            old(io).valid(),
        ensures
            final(io).valid(),
            final(io).origin() == old(io).origin(),
            (Stepped { raft: final(self)@, io: final(io).state() }) == old(self)@.persist_log_from(
                old(io).state(),
                from,
                truncated,
                reply_to,
                reply_term,
                span,
            ),
    {
        let index: u64 = self.log.last_index();
        let batch: u64 = self.persister.start_span(
            Persist::LogDurable { index, reply_to, reply_term },
            span,
        );
        self.write_log_from(io, batch, from, truncated);
    }

    fn persist_state<I: Io + ?Sized>(&mut self, io: &mut I, action: Persist, span: Span)
        requires
            old(io).valid(),
        ensures
            final(io).valid(),
            final(io).origin() == old(io).origin(),
            (Stepped { raft: final(self)@, io: final(io).state() }) == old(self)@.persist_state(
                old(io).state(),
                action,
                span,
            ),
    {
        let batch: u64 = self.persister.start_span(action, span);
        self.write_hard_state(io, batch);
    }

    // ---- elections -------------------------------------------------------

    fn become_candidate<I: Io + ?Sized>(&mut self, io: &mut I)
        requires
            old(self)@.wf(),
            old(io).valid(),
        ensures
            final(self)@.wf(),
            final(io).valid(),
            final(io).origin() == old(io).origin(),
            (Stepped { raft: final(self)@, io: final(io).state() }) == old(self)@.become_candidate(
                old(io).state(),
            ),
    {
        proof {
            reveal(RaftView::become_candidate);
        }
        if self.term == u64::MAX {
            return;
        }
        self.term = self.term + 1;
        self.voted_for = Some(self.id);
        self.role = Role::Candidate;
        self.leader = None;
        self.votes.clear();
        self.votes.insert(self.id.0);
        self.stats.elections_started = count_up(self.stats.elections_started);
        let args: [u64; 1] = [self.term];
        assert(args@ =~= seq![self.term]);
        io.observe("campaign", &args);
        let mut s = own("standing for election in term ");
        put_num(&mut s, self.term);
        io.trace(Level::Info, "raft", s);
        // The vote for itself has to be on disk before it is cast, or a crash
        // could let this node vote twice in one term.
        let term: u64 = self.term;
        self.persist_state(io, Persist::Campaign { term }, blank_span());
        self.reset_election_timer(io);
    }

    fn step_down<I: Io + ?Sized>(&mut self, io: &mut I, term: u64)
        requires
            old(self)@.wf(),
            old(io).valid(),
            term > old(self)@.term,
        ensures
            final(self)@.wf(),
            final(io).valid(),
            final(io).origin() == old(io).origin(),
            (Stepped { raft: final(self)@, io: final(io).state() }) == old(self)@.step_down(
                old(io).state(),
                term,
            ),
    {
        proof {
            reveal(RaftView::step_down);
        }
        if self.role != Role::Follower {
            self.stats.step_downs = count_up(self.stats.step_downs);
            let mut s = own("stepping down: saw term ");
            put_num(&mut s, term);
            s.append(" while ");
            s.append(self.role.name());
            io.trace(Level::Info, "raft", s);
        }
        self.term = term;
        self.voted_for = None;
        self.role = Role::Follower;
        self.leader = None;
        self.votes.clear();
        self.heartbeat_timer.disarm(io);
        self.reset_election_timer(io);
    }

    fn step_down_and_persist<I: Io + ?Sized>(&mut self, io: &mut I, term: u64)
        requires
            old(self)@.wf(),
            old(io).valid(),
            term > old(self)@.term,
        ensures
            final(self)@.wf(),
            final(io).valid(),
            final(io).origin() == old(io).origin(),
            (Stepped { raft: final(self)@, io: final(io).state() }) == old(
                self,
            )@.step_down_and_persist(old(io).state(), term),
    {
        self.step_down(io, term);
        self.persist_state(io, Persist::Quiet, blank_span());
    }

    fn on_request_vote<I: Io + ?Sized>(
        &mut self,
        io: &mut I,
        from: NodeId,
        term: u64,
        candidate: NodeId,
        last_index: u64,
        last_term: u64,
    )
        requires
            old(self)@.wf(),
            old(io).valid(),
        ensures
            final(self)@.wf(),
            final(io).valid(),
            final(io).origin() == old(io).origin(),
            (Stepped { raft: final(self)@, io: final(io).state() }) == old(self)@.on_request_vote(
                old(io).state(),
                from,
                term,
                candidate,
                last_index,
                last_term,
            ),
    {
        proof {
            reveal(RaftView::on_request_vote);
            reveal(RaftView::step_down);
        }
        if term < self.term {
            self.send(io, from, RaftMsg::RequestVoteResp { term: self.term, granted: false });
            return;
        }
        let mut dirty = false;
        if term > self.term {
            self.step_down(io, term);
            dirty = true;
        }
        let free = match self.voted_for {
            Some(v) => v == candidate,
            None => true,
        };
        let recent = self.log.is_up_to_date(last_index, last_term);
        let granted = free && recent;
        if granted {
            if self.voted_for != Some(candidate) {
                self.voted_for = Some(candidate);
                dirty = true;
            }
            // Only a granted vote earns the candidate a stay of execution.
            self.reset_election_timer(io);
        }
        let mut s = own("vote request from ");
        s.append(candidate.text().as_str());
        s.append(" term=");
        put_num(&mut s, term);
        s.append(" granted=");
        s.append(truth_str(granted));
        s.append(" (up_to_date=");
        s.append(truth_str(recent));
        s.append(", free=");
        s.append(truth_str(free));
        s.append(")");
        io.trace(Level::Debug, "raft", s);
        let reply = RaftMsg::RequestVoteResp { term: self.term, granted };
        if dirty && self.cfg.bug != InjectedBug::VoteBeforeSync {
            let now: u64 = self.term;
            self.persist_state(
                io,
                Persist::VoteReply { to: from, term: now, granted },
                blank_span(),
            );
        } else if dirty {
            self.persist_state(io, Persist::Quiet, blank_span());
            self.send(io, from, reply);
        } else {
            self.send(io, from, reply);
        }
    }

    fn on_vote_resp<I: Io + ?Sized>(&mut self, io: &mut I, from: NodeId, term: u64, granted: bool)
        requires
            old(self)@.wf(),
            old(io).valid(),
        ensures
            final(self)@.wf(),
            final(io).valid(),
            final(io).origin() == old(io).origin(),
            (Stepped { raft: final(self)@, io: final(io).state() }) == old(self)@.on_vote_resp(
                old(io).state(),
                from,
                term,
                granted,
            ),
    {
        proof {
            reveal(RaftView::on_vote_resp);
        }
        if term > self.term {
            self.step_down_and_persist(io, term);
            return;
        }
        if self.role != Role::Candidate || term != self.term {
            return;
        }
        if granted {
            self.votes.insert(from.0);
            if self.votes.len() >= self.quorum() {
                self.become_leader(io);
            }
        }
    }

    /// Whether an entry of the current term can be added to the log.
    fn has_room(&self) -> (r: bool)
        ensures
            r == self@.has_room(),
    {
        self.log.last_index() < u64::MAX && self.log.last_term() <= self.term
    }

    fn add_entry<I: Io + ?Sized>(&mut self, io: &mut I, cmd: Command) -> (r: u64)
        requires
            old(self)@.wf(),
            old(self)@.has_room(),
            old(io).valid(),
        ensures
            final(self)@.wf(),
            final(io).valid(),
            final(io).origin() == old(io).origin(),
            r == old(self)@.log.last_index() + 1,
            (Stepped { raft: final(self)@, io: final(io).state() }) == old(self)@.add_entry(
                old(io).state(),
                cmd@,
            ),
    {
        let index: u64 = self.log.last_index() + 1;
        let entry = Entry { term: self.term, index, cmd };
        proof {
            law_append_keeps_wf(self.log@, entry@);
        }
        self.log.append(entry);
        self.persist_log_from(io, index, false, None, 0, log_span(index, u64::MAX));
        index
    }

    fn become_leader<I: Io + ?Sized>(&mut self, io: &mut I)
        requires
            old(self)@.wf(),
            old(io).valid(),
        ensures
            final(self)@.wf(),
            final(io).valid(),
            final(io).origin() == old(io).origin(),
            (Stepped { raft: final(self)@, io: final(io).state() }) == old(self)@.become_leader(
                old(io).state(),
            ),
    {
        proof {
            reveal(RaftView::become_leader);
        }
        let last: u64 = self.log.last_index();
        if !self.has_room() {
            return;
        }
        self.role = Role::Leader;
        self.leader = Some(self.id);
        self.stats.elections_won = count_up(self.stats.elections_won);
        let peers = self.peers();
        self.next_index = map_all(&peers, last + 1);
        self.match_index = map_all(&peers, NO_INDEX);
        let args: [u64; 2] = [self.term, last];
        assert(args@ =~= seq![self.term, last]);
        io.observe("leader", &args);
        let mut s = own("elected leader for term ");
        put_num(&mut s, self.term);
        s.append(" with ");
        put_num(&mut s, self.votes.len() as u64);
        s.append(" votes");
        io.trace(Level::Info, "raft", s);
        self.add_entry(io, Command::noop());
        self.election_timer.disarm(io);
        self.broadcast_append(io);
        self.reset_heartbeat_timer(io);
    }

    // ---- replication -----------------------------------------------------

    fn send_append_to<I: Io + ?Sized>(&mut self, io: &mut I, to: NodeId)
        requires
            old(self)@.wf(),
            old(io).valid(),
        ensures
            final(self)@.wf(),
            final(io).valid(),
            final(io).origin() == old(io).origin(),
            (Stepped { raft: final(self)@, io: final(io).state() }) == old(self)@.send_append_to(
                old(io).state(),
                to,
            ),
    {
        let next: u64 = match self.next_index.get(&to.0) {
            Some(n) => if *n > 1 {
                *n
            } else {
                1
            },
            None => 1,
        };
        let prev_index: u64 = next - 1;
        let prev_term: u64 = match self.log.term_at(prev_index) {
            Some(t) => t,
            // The peer is said to hold more than this node does.
            None => return,
        };
        let entries = self.log.slice_from(next, self.cfg.max_batch);
        let msg = RaftMsg::AppendEntries {
            term: self.term,
            leader: self.id,
            prev_index,
            prev_term,
            entries,
            leader_commit: self.commit_index,
        };
        self.send(io, to, msg);
        self.stats.appends_sent = count_up(self.stats.appends_sent);
    }

    fn broadcast_append<I: Io + ?Sized>(&mut self, io: &mut I)
        requires
            old(self)@.wf(),
            old(io).valid(),
        ensures
            final(self)@.wf(),
            final(io).valid(),
            final(io).origin() == old(io).origin(),
            (Stepped { raft: final(self)@, io: final(io).state() }) == old(self)@.broadcast_append(
                old(io).state(),
                old(self)@.peers().len() as int,
            ),
    {
        let peers = self.peers();
        let mut i: usize = 0;
        while i < peers.len()
            invariant
                i <= peers@.len(),
                peers@ == old(self)@.peers(),
                self@.wf(),
                io.valid(),
                io.origin() == old(io).origin(),
                (Stepped { raft: self@, io: io.state() }) == old(self)@.broadcast_append(
                    old(io).state(),
                    i as int,
                ),
            decreases peers@.len() - i,
        {
            self.send_append_to(io, peers[i]);
            i += 1;
        }
    }

    /// Where the leader should back up to, given that `prev_index` did not
    /// match. Skipping the whole conflicting term at once turns a linear walk
    /// into one round trip per term.
    fn conflict_hint(&self, prev_index: u64) -> (r: u64)
        requires
            self@.wf(),
        ensures
            r == self@.conflict_hint(prev_index),
    {
        if self.log.last_index() < prev_index {
            return count_up(self.log.last_index());
        }
        match self.log.term_at(prev_index) {
            None => count_up(self.log.last_index()),
            Some(t) => {
                let mut i: u64 = prev_index;
                while i > 1 && self.log.matches(i - 1, t)
                    invariant
                        self@.wf(),
                        run_start(self@.log, t, prev_index) == run_start(self@.log, t, i),
                    decreases i,
                {
                    i -= 1;
                }
                i
            },
        }
    }

    fn truncate<I: Io + ?Sized>(&mut self, io: &mut I, at: u64)
        requires
            old(self)@.log.wf(),
            old(io).valid(),
            at > 0,
        ensures
            final(io).valid(),
            final(io).origin() == old(io).origin(),
            (Stepped { raft: final(self)@, io: final(io).state() }) == old(self)@.truncate(
                old(io).state(),
                at,
            ),
    {
        self.stats.truncations = count_up(self.stats.truncations);
        if at <= self.commit_index {
            self.stats.truncated_committed = count_up(self.stats.truncated_committed);
        }
        let mut s = own("truncating log from index ");
        put_num(&mut s, at);
        s.append(" (had ");
        put_num(&mut s, self.log.last_index());
        s.append(")");
        io.trace(Level::Info, "raft", s);
        let args: [u64; 1] = [at];
        assert(args@ =~= seq![at]);
        io.observe("truncate", &args);
        self.log.truncate_from(at);
        let cap: u64 = at - 1;
        self.synced_index = min_u64(self.synced_index, cap);
        self.parked = cut_parked(&self.parked, cap);
        self.persister.clamp_all(cap);
    }

    fn heed_leader<I: Io + ?Sized>(&mut self, io: &mut I, term: u64, leader: NodeId)
        requires
            old(self)@.wf(),
            old(io).valid(),
            term >= old(self)@.term,
        ensures
            final(self)@.wf(),
            final(io).valid(),
            final(io).origin() == old(io).origin(),
            final(self)@.log == old(self)@.log,
            final(self)@.term == term,
            final(self)@.cfg == old(self)@.cfg,
            (Stepped { raft: final(self)@, io: final(io).state() }) == old(self)@.heed_leader(
                old(io).state(),
                term,
                leader,
            ),
    {
        proof {
            reveal(RaftView::heed_leader);
            reveal(RaftView::step_down);
        }
        if term > self.term {
            self.step_down(io, term);
        }
        if self.role != Role::Follower {
            // A candidate that hears from a leader of its own term concedes.
            self.role = Role::Follower;
            self.votes.clear();
            self.heartbeat_timer.disarm(io);
        }
        self.leader = Some(leader);
        self.reset_election_timer(io);
    }

    fn reject_append<I: Io + ?Sized>(
        &mut self,
        io: &mut I,
        from: NodeId,
        prev_index: u64,
        prev_term: u64,
        dirty: bool,
    )
        requires
            old(self)@.wf(),
            old(io).valid(),
        ensures
            final(self)@.wf(),
            final(io).valid(),
            final(io).origin() == old(io).origin(),
            (Stepped { raft: final(self)@, io: final(io).state() }) == old(self)@.reject_append(
                old(io).state(),
                from,
                prev_index,
                prev_term,
                dirty,
            ),
    {
        let hint: u64 = self.conflict_hint(prev_index);
        let mut s = own("rejecting append prev=(");
        put_num(&mut s, prev_index);
        s.append(",");
        put_num(&mut s, prev_term);
        s.append("); my last=(");
        put_num(&mut s, self.log.last_index());
        s.append(",");
        put_num(&mut s, self.log.last_term());
        s.append(") hint=");
        put_num(&mut s, hint);
        io.trace(Level::Debug, "raft", s);
        if dirty {
            self.persist_state(io, Persist::Quiet, blank_span());
        } else {
            let match_index: u64 = self.durable_index();
            self.send(
                io,
                from,
                RaftMsg::AppendEntriesResp {
                    term: self.term,
                    success: false,
                    match_index,
                    conflict_index: hint,
                },
            );
        }
    }

    #[verifier::rlimit(60)]
    #[verifier::spinoff_prover]
    fn store_entries<I: Io + ?Sized>(
        &mut self,
        io: &mut I,
        from: NodeId,
        prev_index: u64,
        entries: &Vec<Entry>,
        i: usize,
        cut: Option<u64>,
        dirty: bool,
    )
        requires
            old(self)@.wf(),
            old(io).valid(),
            i <= entries@.len(),
            cut is Some ==> cut->Some_0 > 0,
            ({
                let log = match cut {
                    Some(at) => old(self)@.log.truncate_from(at),
                    None => old(self)@.log,
                };
                &&& storable_after(log, entry_views(entries@).skip(i as int))
            }),
        ensures
            final(self)@.wf(),
            final(io).valid(),
            final(io).origin() == old(io).origin(),
            (Stepped { raft: final(self)@, io: final(io).state() }) == old(self)@.store_entries(
                old(io).state(),
                from,
                prev_index,
                entry_views(entries@),
                i as int,
                cut,
                dirty,
            ),
    {
        proof {
            reveal(RaftView::store_entries);
        }
        let ghost v = entry_views(entries@);
        let ghost tail = v.skip(i as int);
        let last: u64 = add_capped(prev_index, entries.len() as u64);
        let start: u64 = add_capped(add_capped(prev_index, 1), i as u64);
        assert(start == capped_u64(prev_index + 1 + i));
        if let Some(at) = cut {
            self.truncate(io, at);
        }
        let ghost base = self@;
        let ghost io0 = io.state();
        let mut k: usize = i;
        while k < entries.len()
            invariant
                i <= k <= entries@.len(),
                v == entry_views(entries@),
                tail == v.skip(i as int),
                storable_after(base.log, tail),
                base.log.snapshot_index == 0,
                base.log.snapshot_term == 0,
                self@.log.wf(),
                self@.log == base.log.append_all(tail.take(k - i)),
                self@ == (RaftView { log: self@.log, ..base }),
            decreases entries@.len() - k,
        {
            proof {
                let t = tail.take(k + 1 - i);
                assert(t.drop_last() =~= tail.take(k - i));
                assert(t.last() == entries@[k as int]@);
                lemma_storable_step(base.log, tail, k - i);
                assert(tail[k - i] == entries@[k as int]@);
            }
            self.log.append(entries[k].clone());
            k += 1;
        }
        proof {
            assert(tail.take(k - i) =~= tail);
            lemma_append_all_entries(base.log, tail);
            lemma_storable_end(base.log, tail);
        }
        let count: usize = entries.len() - i;
        self.stats.entries_replicated = add_capped(self.stats.entries_replicated, count as u64);
        let first: u64 = if count > 0 {
            start
        } else {
            0
        };
        let index: u64 = self.log.last_index();
        let reply_term: u64 = self.term;
        let batch: u64 = self.persister.start_span(
            Persist::LogDurable { index, reply_to: Some(from), reply_term },
            log_span(first, last),
        );
        if dirty {
            // Same batch as the entries: one sync orders the term update ahead
            // of the entries it authorises.
            self.write_hard_state(io, batch);
        }
        self.write_log_from(io, batch, start, cut.is_some());
        if self.cfg.bug == InjectedBug::AckBeforeSync {
            self.send(
                io,
                from,
                RaftMsg::AppendEntriesResp {
                    term: self.term,
                    success: true,
                    match_index: last,
                    conflict_index: NO_INDEX,
                },
            );
        }
    }

    fn confirm_append<I: Io + ?Sized>(&mut self, io: &mut I, from: NodeId, last: u64, dirty: bool)
        requires
            old(self)@.wf(),
            old(io).valid(),
        ensures
            final(self)@.wf(),
            final(io).valid(),
            final(io).origin() == old(io).origin(),
            (Stepped { raft: final(self)@, io: final(io).state() }) == old(self)@.confirm_append(
                old(io).state(),
                from,
                last,
                dirty,
            ),
    {
        let durable: u64 = self.durable_index();
        if dirty {
            let reply_term: u64 = self.term;
            self.persist_state(
                io,
                Persist::LogDurable { index: durable, reply_to: Some(from), reply_term },
                log_span(0, last),
            );
        } else {
            // Nothing new to persist: answer with what is already durable, as
            // far as it is known to agree.
            self.send(
                io,
                from,
                RaftMsg::AppendEntriesResp {
                    term: self.term,
                    success: true,
                    match_index: min_u64(durable, last),
                    conflict_index: NO_INDEX,
                },
            );
        }
    }

    fn follow_commit<I: Io + ?Sized>(&mut self, io: &mut I, leader_commit: u64, last: u64)
        requires
            old(self)@.wf(),
            old(io).valid(),
        ensures
            final(self)@.wf(),
            final(io).valid(),
            final(io).origin() == old(io).origin(),
            (Stepped { raft: final(self)@, io: final(io).state() }) == old(self)@.follow_commit(
                old(io).state(),
                leader_commit,
                last,
            ),
    {
        let commit: u64 = min_u64(min_u64(leader_commit, last), self.log.last_index());
        if commit > self.commit_index {
            self.commit_index = commit;
            let args: [u64; 1] = [commit];
            assert(args@ =~= seq![commit]);
            io.observe("commit", &args);
        }
    }

    #[verifier::spinoff_prover]
    #[verifier::rlimit(40)]
    fn take_append<I: Io + ?Sized>(
        &mut self,
        io: &mut I,
        from: NodeId,
        prev_index: u64,
        prev_term: u64,
        entries: &Vec<Entry>,
        leader_commit: u64,
        dirty: bool,
    )
        requires
            old(self)@.wf(),
            old(io).valid(),
            old(self)@.log.matches(prev_index, prev_term),
        ensures
            final(self)@.wf(),
            final(io).valid(),
            final(io).origin() == old(io).origin(),
            (Stepped { raft: final(self)@, io: final(io).state() }) == old(self)@.take_append(
                old(io).state(),
                from,
                prev_index,
                prev_term,
                entry_views(entries@),
                leader_commit,
                dirty,
            ),
    {
        proof {
            reveal(RaftView::take_append);
        }
        let ghost v = entry_views(entries@);
        let last: u64 = add_capped(prev_index, entries.len() as u64);
        // Find the first entry that is genuinely new or conflicting. Entries we
        // already have are skipped rather than rewritten: a delayed duplicate
        // must never truncate a log that has moved on.
        let (mut new, mut cut) = find_new(&self.log, prev_index, entries);
        if self.cfg.bug == InjectedBug::TruncateOnAnyAppend && new.is_none()
            && self.log.last_index() > last {
            new = Some(entries.len());
            cut = Some(last + 1);
        }
        match new {
            Some(i) => {
                let floor: u64 = if i == 0 {
                    prev_term
                } else {
                    entries[i - 1].term
                };
                assert(i > 0 ==> v[i - 1] == entries@[i - 1]@);
                if !entries_follow(prev_index, floor, entries, i) {
                    // Entries that cannot stand in a log: no leader sends them.
                    self.stats.bad_messages = count_up(self.stats.bad_messages);
                    if dirty {
                        self.persist_state(io, Persist::Quiet, blank_span());
                    }
                    return;
                }
                proof {
                    lemma_plan(self@, prev_index, prev_term, v);
                    if i < v.len() {
                        lemma_plan_storable(self@, prev_index, prev_term, v, i as int);
                    } else {
                        lemma_truncate_wf(self@.log, cut->Some_0);
                        assert(v.skip(i as int) =~= Seq::empty());
                    }
                }
                self.store_entries(io, from, prev_index, entries, i, cut, dirty);
            },
            None => {
                self.confirm_append(io, from, last, dirty);
            },
        }
        self.follow_commit(io, leader_commit, last);
    }

    fn on_append_entries<I: Io + ?Sized>(
        &mut self,
        io: &mut I,
        from: NodeId,
        term: u64,
        leader: NodeId,
        prev_index: u64,
        prev_term: u64,
        entries: Vec<Entry>,
        leader_commit: u64,
    )
        requires
            old(self)@.wf(),
            old(io).valid(),
        ensures
            final(self)@.wf(),
            final(io).valid(),
            final(io).origin() == old(io).origin(),
            (Stepped { raft: final(self)@, io: final(io).state() }) == old(self)@.on_append_entries(
                old(io).state(),
                from,
                term,
                leader,
                prev_index,
                prev_term,
                entry_views(entries@),
                leader_commit,
            ),
    {
        proof {
            reveal(RaftView::on_append_entries);
        }
        if term < self.term {
            self.send(
                io,
                from,
                RaftMsg::AppendEntriesResp {
                    term: self.term,
                    success: false,
                    match_index: NO_INDEX,
                    conflict_index: NO_INDEX,
                },
            );
            return;
        }
        let dirty = term > self.term;
        self.heed_leader(io, term, leader);
        if self.log.matches(prev_index, prev_term) {
            self.take_append(io, from, prev_index, prev_term, &entries, leader_commit, dirty);
        } else {
            self.reject_append(io, from, prev_index, prev_term, dirty);
        }
    }

    fn quorum_index(&self) -> (r: u64)
        requires
            self@.wf(),
        ensures
            r == self@.quorum_index(),
    {
        let mut values: Vec<u64> = Vec::new();
        let mut i: usize = 0;
        while i < self.members.len()
            invariant
                i <= self.members@.len(),
                self@.wf(),
                values@ == self@.replicated(i as int),
                values@.len() == i,
            decreases self.members@.len() - i,
        {
            let m = self.members[i];
            let v: u64 = if m == self.id {
                self.durable_index()
            } else {
                match self.match_index.get(&m.0) {
                    Some(x) => *x,
                    None => NO_INDEX,
                }
            };
            values.push(v);
            i += 1;
        }
        nth_largest(&values, self.quorum())
    }

    fn maybe_commit<I: Io + ?Sized>(&mut self, io: &mut I)
        requires
            old(self)@.wf(),
            old(io).valid(),
        ensures
            final(self)@.wf(),
            final(io).valid(),
            final(io).origin() == old(io).origin(),
            (Stepped { raft: final(self)@, io: final(io).state() }) == old(self)@.maybe_commit(
                old(io).state(),
            ),
    {
        proof {
            reveal(RaftView::maybe_commit);
        }
        let c: u64 = self.quorum_index();
        // Raft's commit rule: a leader may only commit by counting replicas of
        // an entry from its *own* term. Counting an older entry's replicas can
        // commit something a later leader will overwrite.
        let mine = match self.log.term_at(c) {
            Some(t) => t == self.term || self.cfg.bug == InjectedBug::CommitAnyTerm,
            None => false,
        };
        if c > self.commit_index && mine {
            self.commit_index = c;
            let args: [u64; 1] = [c];
            assert(args@ =~= seq![c]);
            io.observe("commit", &args);
            let mut s = own("commit index advanced to ");
            put_num(&mut s, c);
            io.trace(Level::Debug, "raft", s);
        }
    }

    fn on_append_resp<I: Io + ?Sized>(
        &mut self,
        io: &mut I,
        from: NodeId,
        term: u64,
        success: bool,
        match_index: u64,
        conflict_index: u64,
    )
        requires
            old(self)@.wf(),
            old(io).valid(),
        ensures
            final(self)@.wf(),
            final(io).valid(),
            final(io).origin() == old(io).origin(),
            (Stepped { raft: final(self)@, io: final(io).state() }) == old(self)@.on_append_resp(
                old(io).state(),
                from,
                term,
                success,
                match_index,
                conflict_index,
            ),
    {
        proof {
            reveal(RaftView::on_append_resp);
        }
        if term > self.term {
            self.step_down_and_persist(io, term);
            return;
        }
        if self.role != Role::Leader || term != self.term {
            return;
        }
        if success {
            let known: u64 = match self.match_index.get(&from.0) {
                Some(m) => *m,
                None => NO_INDEX,
            };
            // Responses can arrive out of order; the match only ever grows.
            let m: u64 = if match_index > known {
                match_index
            } else {
                known
            };
            self.match_index.insert(from.0, m);
            self.next_index.insert(from.0, count_up(m));
            self.maybe_commit(io);
            // If the follower is still behind, keep the pipeline moving rather
            // than waiting for the next heartbeat.
            if m < self.log.last_index() {
                self.send_append_to(io, from);
            }
        } else {
            let cur: u64 = match self.next_index.get(&from.0) {
                Some(n) => *n,
                None => 1,
            };
            let hint: u64 = if conflict_index > 1 {
                conflict_index
            } else {
                1
            };
            let back: u64 = if cur > 1 {
                cur - 1
            } else {
                0
            };
            let mut next: u64 = min_u64(hint, back);
            if next < 1 {
                next = 1;
            }
            self.next_index.insert(from.0, next);
            self.send_append_to(io, from);
        }
    }

    // ---- durability ------------------------------------------------------

    fn settle<I: Io + ?Sized>(&mut self, io: &mut I, action: Persist, span: Span)
        requires
            old(self)@.wf(),
            old(io).valid(),
        ensures
            final(self)@.wf(),
            final(io).valid(),
            final(io).origin() == old(io).origin(),
            (Stepped { raft: final(self)@, io: final(io).state() }) == old(self)@.settle(
                old(io).state(),
                action,
                span,
            ),
    {
        proof {
            reveal(RaftView::settle);
        }
        let before: u64 = self.durable_index();
        if span.term > self.durable_term {
            self.durable_term = span.term;
        }
        if span.seq > self.durable_seq {
            self.durable_seq = span.seq;
        }
        if let Persist::LogDurable { index, .. } = action {
            let last: u64 = min_u64(index, self.log.last_index());
            if span.first > 0 && span.first <= last {
                let mut ranges: Vec<(u64, u64)> = Vec::new();
                core::mem::swap(&mut self.parked, &mut ranges);
                ranges.push((span.first, last));
                let (synced, parked) = absorb(self.synced_index, ranges);
                self.synced_index = synced;
                self.parked = parked;
            }
        }
        let after: u64 = self.durable_index();
        if after > before {
            let args: [u64; 1] = [after];
            assert(args@ =~= seq![after]);
            io.observe("durable", &args);
        }
    }

    fn on_durable<I: Io + ?Sized>(&mut self, io: &mut I, action: Persist, span: Span)
        requires
            old(self)@.wf(),
            old(io).valid(),
        ensures
            final(self)@.wf(),
            final(io).valid(),
            final(io).origin() == old(io).origin(),
            (Stepped { raft: final(self)@, io: final(io).state() }) == old(self)@.on_durable(
                old(io).state(),
                action,
                span,
            ),
    {
        proof {
            reveal(RaftView::on_durable);
        }
        match action {
            Persist::Campaign { term } => {
                if self.term == term && self.role == Role::Candidate {
                    let peers = self.peers();
                    let msg = RaftMsg::RequestVote {
                        term,
                        candidate: self.id,
                        last_index: self.log.last_index(),
                        last_term: self.log.last_term(),
                    };
                    let mut i: usize = 0;
                    while i < peers.len()
                        invariant
                            i <= peers@.len(),
                            *self == *old(self),
                            peers@ == self@.peers(),
                            io.valid(),
                            io.origin() == old(io).origin(),
                            io.state() == self@.send_all(old(io).state(), msg@, i as int),
                        decreases peers@.len() - i,
                    {
                        self.send(io, peers[i], msg.clone());
                        i += 1;
                    }
                    // A single-node cluster elects itself here.
                    if self.votes.len() >= self.quorum() {
                        self.become_leader(io);
                    }
                }
            },
            Persist::VoteReply { to, term, granted } => {
                self.send(io, to, RaftMsg::RequestVoteResp { term, granted });
            },
            Persist::LogDurable { index: _, reply_to, reply_term } => {
                if let Some(to) = reply_to {
                    // Only claim what is durable *and* known to agree: a
                    // truncation may have overtaken this batch, and past what
                    // was compared the log may run on into another history.
                    let match_index: u64 = min_u64(self.durable_index(), span.agreed);
                    self.send(
                        io,
                        to,
                        RaftMsg::AppendEntriesResp {
                            term: reply_term,
                            success: true,
                            match_index,
                            conflict_index: NO_INDEX,
                        },
                    );
                }
                if self.role == Role::Leader {
                    self.maybe_commit(io);
                }
            },
            Persist::Quiet => {},
        }
    }

    // ---- event entry points ----------------------------------------------

    pub fn on_message<I: Io + ?Sized>(&mut self, io: &mut I, from: NodeId, msg: RaftMsg)
        requires
            old(self)@.wf(),
            old(io).valid(),
        ensures
            final(self)@.wf(),
            final(io).valid(),
            final(io).origin() == old(io).origin(),
            (Stepped { raft: final(self)@, io: final(io).state() }) == old(self)@.on_message(
                old(io).state(),
                from,
                msg@,
            ),
    {
        if self.failed {
            return;
        }
        match msg {
            RaftMsg::RequestVote { term, candidate, last_index, last_term } => {
                self.on_request_vote(io, from, term, candidate, last_index, last_term)
            },
            RaftMsg::RequestVoteResp { term, granted } => self.on_vote_resp(
                io,
                from,
                term,
                granted,
            ),
            RaftMsg::AppendEntries {
                term,
                leader,
                prev_index,
                prev_term,
                entries,
                leader_commit,
            } => self.on_append_entries(
                io,
                from,
                term,
                leader,
                prev_index,
                prev_term,
                entries,
                leader_commit,
            ),
            RaftMsg::AppendEntriesResp { term, success, match_index, conflict_index } => {
                self.on_append_resp(io, from, term, success, match_index, conflict_index)
            },
        }
    }

    pub fn on_timer<I: Io + ?Sized>(&mut self, io: &mut I, tag: TimerTag)
        requires
            old(self)@.wf(),
            old(io).valid(),
        ensures
            final(self)@.wf(),
            final(io).valid(),
            final(io).origin() == old(io).origin(),
            (Stepped { raft: final(self)@, io: final(io).state() }) == old(self)@.on_timer(
                old(io).state(),
                tag,
            ),
    {
        if self.failed {
            return;
        }
        if tag == TIMER_ELECTION {
            if !self.election_timer.fired() {
                return;  // a cancelled timer that arrived anyway
            }
            if self.role == Role::Leader {
                return;
            }
            self.become_candidate(io);
        } else if tag == TIMER_HEARTBEAT {
            if !self.heartbeat_timer.fired() {
                return;
            }
            if self.role != Role::Leader {
                return;
            }
            self.broadcast_append(io);
            self.reset_heartbeat_timer(io);
        }
    }

    pub fn on_storage<I: Io + ?Sized>(&mut self, io: &mut I, op: OpId, ok: bool)
        requires
            old(self)@.wf(),
            old(io).valid(),
        ensures
            final(self)@.wf(),
            final(io).valid(),
            final(io).origin() == old(io).origin(),
            (Stepped { raft: final(self)@, io: final(io).state() }) == old(self)@.on_storage(
                old(io).state(),
                op,
                ok,
            ),
    {
        if self.failed {
            return;
        }
        let (event, span) = self.persister.complete(op, ok);
        match event {
            BatchEvent::Nothing => {},
            BatchEvent::Failed => {
                self.failed = true;
                io.trace(Level::Error, "raft", own("storage failure; node is going down"));
                let none: [u64; 0] = [];
                assert(none@ =~= Seq::<u64>::empty());
                io.observe("io_failed", &none);
            },
            BatchEvent::NeedSync(id) => {
                let sync_op: u64 = io.sync(FILE_WAL);
                self.persister.note_sync(id, sync_op);
            },
            BatchEvent::Done(action) => {
                self.settle(io, action, span);
                self.on_durable(io, action, span);
            },
        }
    }

    /// Append a client command. Returns the log index it was assigned, or
    /// `None` if this node is not the leader.
    pub fn propose<I: Io + ?Sized>(&mut self, io: &mut I, cmd: Command) -> (r: Option<u64>)
        requires
            old(self)@.wf(),
            old(io).valid(),
        ensures
            final(self)@.wf(),
            final(io).valid(),
            final(io).origin() == old(io).origin(),
            (Stepped { raft: final(self)@, io: final(io).state() }) == old(self)@.propose(
                old(io).state(),
                cmd@,
            ),
            r == if old(self)@.accepts_commands() {
                Some((old(self)@.log.last_index() + 1) as u64)
            } else {
                None
            },
    {
        if self.role != Role::Leader || self.failed || !self.has_room() {
            return None;
        }
        let index: u64 = self.add_entry(io, cmd);
        self.broadcast_append(io);
        Some(index)
    }

    /// Entries that have been committed and not yet handed to the state
    /// machine.
    pub fn take_applied(&mut self) -> (r: Vec<Entry>)
        requires
            old(self)@.wf(),
        ensures
            final(self)@.wf(),
            final(self)@ == old(self)@.take_applied(),
            entry_views(r@) == old(self)@.applicable(),
    {
        proof {
            lemma_last_index(self.log@);
        }
        let limit: u64 = min_u64(self.commit_index, self.log.last_index());
        if self.last_applied >= limit {
            let none: Vec<Entry> = Vec::new();
            assert(entry_views(none@) =~= Seq::empty());
            return none;
        }
        let es = self.log.entries();
        assert(limit <= es.len());
        let out = copy_entries(es, self.last_applied as usize, limit as usize);
        self.last_applied = limit;
        out
    }

    // ---- recovery --------------------------------------------------------

    /// Start (or restart) a node, recovering whatever is on its disk.
    #[verifier::spinoff_prover]
    #[verifier::rlimit(40)]
    pub fn recover<I: Io + ?Sized>(
        io: &mut I,
        id: NodeId,
        members: Vec<NodeId>,
        cfg: RaftConfig,
        seed: u64,
    ) -> (r: Raft)
        requires
            old(io).valid(),
            members@.contains(id),
        ensures
            r@.wf(),
            final(io).valid(),
            final(io).origin() == old(io).origin(),
            (Stepped { raft: r@, io: final(io).state() }) == RaftView::recover(
                old(io).state(),
                id,
                members@,
                cfg,
                seed,
            ),
    {
        let bytes = io.read_all(FILE_WAL);
        let hs = recover_hard_state(bytes.as_slice());
        let log_bytes = if bytes.len() > LOG_REGION {
            copy_range(bytes.as_slice(), LOG_REGION, bytes.len())
        } else {
            Vec::new()
        };
        assert(log_bytes@ =~= RaftView::log_bytes(bytes@));
        let found = recover_log(log_bytes.as_slice());
        let total: usize = found.entries.len();

        // Entries whose term exceeds the durable term were never acknowledged:
        // acknowledging one would have required the sync that also made the
        // term durable. Dropping them keeps "durable log implies durable term",
        // which is what stops two leaders sharing a term after a crash.
        let mut entries = found.entries;
        let ghost all = entry_views(entries@);
        assert(all.take(entries@.len() as int) =~= all);
        while entries.len() > 0 && entries[entries.len() - 1].term > hs.term
            invariant
                entries@.len() <= all.len(),
                entry_views(entries@) == all.take(entries@.len() as int),
                up_to_term(all, hs.term) == up_to_term(entry_views(entries@), hs.term),
            decreases entries@.len(),
        {
            let ghost before = entry_views(entries@);
            assert(before.last() == entries@.last()@);
            entries.pop();
            assert(entry_views(entries@) =~= before.drop_last());
            assert(before.drop_last() =~= all.take(entries@.len() as int));
        }
        let ghost kept = entry_views(entries@);
        proof {
            if entries@.len() > 0 {
                assert(kept.last() == entries@.last()@);
            }
            assert(kept == up_to_term(all, hs.term));
            assert forall|i: int| 0 <= i < kept.len() implies (#[trigger] kept[i]).index == 1 + i by {
                assert(kept[i] == all[i]);
            }
            assert forall|i: int, j: int| 0 <= i <= j < kept.len() implies (
            #[trigger] kept[i]).term <= (#[trigger] kept[j]).term by {
                assert(kept[i] == all[i] && kept[j] == all[j]);
            }
        }
        let damaged = found.damaged || entries.len() < total;
        let log = RaftLog::from_entries(entries);
        if damaged {
            // Cut the file back to the prefix we trust, so later appends do not
            // land after garbage.
            io.set_len(FILE_WAL, region_offset(log.byte_len()));
            io.sync(FILE_WAL);
        }
        let synced: u64 = log.last_index();
        let mut raft = Raft {
            id,
            members,
            cfg,
            role: Role::Follower,
            term: hs.term,
            voted_for: hs.voted_for,
            log,
            commit_index: NO_INDEX,
            last_applied: NO_INDEX,
            leader: None,
            votes: BTreeSet::new(),
            next_index: BTreeMap::new(),
            match_index: BTreeMap::new(),
            synced_index: synced,
            parked: Vec::new(),
            durable_term: hs.term,
            durable_seq: hs.seq,
            state_seq: count_up(hs.seq),
            persister: Persister::default(),
            election_timer: Deadline::new(),
            heartbeat_timer: Deadline::new(),
            rng: Rng::new(seed),
            failed: false,
            stats: RaftStats::default(),
        };
        proof {
            lemma_append_all_entries(LogView::empty(), kept);
            assert(LogView::empty().entries + kept =~= kept);
            assert(raft@ =~= RaftView::loaded(bytes@, id, members@, cfg, seed));
            assert(damaged == RaftView::was_damaged(bytes@));
        }
        let durable: u64 = raft.durable_index();
        let args: [u64; 3] = [raft.term, synced, durable];
        assert(args@ =~= seq![raft@.term, raft@.log.last_index(), raft@.durable_index()]);
        io.observe("recover", &args);
        let mut s = own("recovered term=");
        put_num(&mut s, raft.term);
        s.append(" vote=");
        let vote = match raft.voted_for {
            Some(n) => {
                let mut t = own("Some(");
                put_num(&mut t, n.0 as u64);
                t.append(")");
                t
            },
            None => own("None"),
        };
        s.append(vote.as_str());
        s.append(" log=");
        put_num(&mut s, synced);
        s.append(" durable=");
        put_num(&mut s, durable);
        s.append(" damaged=");
        s.append(truth_str(damaged));
        io.trace(Level::Info, "raft", s);
        raft.reset_election_timer(io);
        raft
    }
}

fn blank_span() -> (r: Span)
    ensures
        r == Span::blank(),
{
    Span { first: 0, agreed: u64::MAX, term: 0, seq: 0 }
}

fn log_span(first: u64, agreed: u64) -> (r: Span)
    ensures
        r == Span::of_log(first, agreed),
{
    Span { first, agreed, term: 0, seq: 0 }
}

/// Size of one hard-state slot, for the durability checker.
pub const HARD_STATE_SLOT: usize = 64;

// ---- why new entries fit in the log --------------------------------------

/// Whether entries can be added to a log one after another.
pub open spec fn storable_after(log: LogView, es: Seq<EntryView>) -> bool {
    &&& log.wf()
    &&& contiguous(es, log.last_index() + 1)
    &&& es.len() > 0 ==> es[0].term >= log.last_term()
}

proof fn lemma_storable_step(log: LogView, es: Seq<EntryView>, k: int)
    requires
        storable_after(log, es),
        0 <= k < es.len(),
    ensures
        log.append_all(es.take(k)).accepts(es[k]),
        log.append_all(es.take(k)).wf(),
    decreases k,
{
    let t = es.take(k);
    lemma_append_all_entries(log, t);
    if k == 0 {
        assert(t =~= Seq::empty());
    } else {
        lemma_storable_step(log, es, k - 1);
        assert(t.drop_last() =~= es.take(k - 1));
        assert(t.last() == es[k - 1]);
        law_append_keeps_wf(log.append_all(es.take(k - 1)), es[k - 1]);
        assert(es[k - 1].term <= es[k].term);
    }
}

pub proof fn lemma_storable_end(log: LogView, es: Seq<EntryView>)
    requires
        storable_after(log, es),
    ensures
        log.append_all(es).wf(),
{
    if es.len() > 0 {
        let k = es.len() - 1;
        lemma_storable_step(log, es, k);
        assert(es.take(k) =~= es.drop_last());
        law_append_keeps_wf(log.append_all(es.take(k)), es[k]);
    }
}

/// Where the comparison of an append stopped, everything before was held.
proof fn lemma_first_new(log: LogView, prev_index: u64, entries: Seq<EntryView>, i: int)
    requires
        log.wf(),
        log.snapshot_index == 0,
        0 <= i <= entries.len(),
    ensures
        ({
            let (new, cut) = first_new(log, prev_index, entries, i);
            &&& new matches Some(k) ==> i <= k < entries.len() && (forall|j: int|
                i <= j < k ==> log.term_at(capped_u64(prev_index + 1 + j)) == Some(
                    (#[trigger] entries[j]).term,
                )) && (match cut {
                Some(at) => at == capped_u64(prev_index + 1 + k) && log.term_at(at) is Some,
                None => log.term_at(capped_u64(prev_index + 1 + k)) is None,
            })
            &&& new is None ==> cut is None
        }),
    decreases entries.len() - i,
{
    if i < entries.len() {
        let idx = capped_u64(prev_index + 1 + i);
        if log.term_at(idx) == Some(entries[i].term) {
            lemma_first_new(log, prev_index, entries, i + 1);
        }
    }
}

pub proof fn lemma_plan(r: RaftView, prev_index: u64, prev_term: u64, entries: Seq<EntryView>)
    requires
        r.wf(),
        r.log.matches(prev_index, prev_term),
    ensures
        ({
            let (new, cut) = r.append_plan(prev_index, entries);
            cut matches Some(at) ==> at > 0
        }),
{
    lemma_first_new(r.log, prev_index, entries, 0);
}

proof fn lemma_follow_contiguous(prev_index: u64, floor: u64, entries: Seq<EntryView>, i: int)
    requires
        0 <= i <= entries.len(),
        follow_on(prev_index, floor, entries, i),
    ensures
        contiguous(entries.skip(i), prev_index + 1 + i),
        i < entries.len() ==> floor <= entries[i].term,
    decreases entries.len() - i,
{
    let t = entries.skip(i);
    if i < entries.len() {
        lemma_follow_contiguous(prev_index, entries[i].term, entries, i + 1);
        let u = entries.skip(i + 1);
        assert forall|k: int| 0 <= k < t.len() implies (#[trigger] t[k]).index == prev_index + 1 + i
            + k by {
            if k > 0 {
                assert(t[k] == u[k - 1]);
            }
        }
        assert forall|k: int, m: int| 0 <= k <= m < t.len() implies (#[trigger] t[k]).term <= (
        #[trigger] t[m]).term by {
            if k > 0 {
                assert(t[k] == u[k - 1] && t[m] == u[m - 1]);
            } else if m > 0 {
                assert(t[m] == u[m - 1]);
                assert(u[0].term <= u[m - 1].term);
                assert(u[0] == entries[i + 1]);
            }
        }
    }
}

pub proof fn lemma_plan_storable(
    r: RaftView,
    prev_index: u64,
    prev_term: u64,
    entries: Seq<EntryView>,
    i: int,
)
    requires
        r.wf(),
        r.log.matches(prev_index, prev_term),
        r.append_plan(prev_index, entries).0 == Some(i),
        i < entries.len(),
        follow_on(
            prev_index,
            if i == 0 {
                prev_term
            } else {
                entries[i - 1].term
            },
            entries,
            i,
        ),
    ensures
        ({
            let cut = r.append_plan(prev_index, entries).1;
            let log = match cut {
                Some(at) => r.log.truncate_from(at),
                None => r.log,
            };
            storable_after(log, entries.skip(i))
        }),
{
    let (new, cut) = r.append_plan(prev_index, entries);
    assert((new, cut) == first_new(r.log, prev_index, entries, 0));
    lemma_first_new(r.log, prev_index, entries, 0);
    let floor = if i == 0 {
        prev_term
    } else {
        entries[i - 1].term
    };
    lemma_follow_contiguous(prev_index, floor, entries, i);
    let tail = entries.skip(i);
    assert(tail[0] == entries[i]);
    assert(tail.last() == entries.last());
    assert(entries[i].index == prev_index + 1 + i);
    let idx = (prev_index + 1 + i) as u64;
    lemma_last_index(r.log);
    // The entry before the first new one is in the log, with the floor as its
    // term.
    assert(r.log.term_at((idx - 1) as u64) == Some(floor)) by {
        if i > 0 {
            assert(r.log.term_at(capped_u64(prev_index + 1 + (i - 1))) == Some(
                entries[i - 1].term,
            ));
        }
    }
    match cut {
        Some(at) => {
            assert(at == idx);
            let log = r.log.truncate_from(at);
            lemma_truncate_wf(r.log, at);
            lemma_last_index(log);
            assert(log.entries.len() == idx - 1);
            if log.entries.len() > 0 {
                assert(log.entries.last() == r.log.entries[idx - 2]);
                assert(r.log.get((idx - 1) as u64) == Some(r.log.entries[idx - 2]));
            }
        },
        None => {
            assert(r.log.term_at(idx) is None);
            assert(r.log.last_index() == idx - 1);
            if r.log.entries.len() > 0 {
                assert(r.log.get((idx - 1) as u64) == Some(r.log.entries.last()));
            }
        },
    }
}

} // verus!
