//! Simulated clients, and the history they record.
//!
//! Clients live on the network like anything else: their requests are delayed,
//! dropped, duplicated and misdelivered, and they only learn what the replies
//! tell them.
//!
//! The subtle part is what counts as *one operation*. A client that times out
//! and retries has not performed two operations -- it has performed one, whose
//! outcome it does not yet know. Every attempt carries the same `seq`, the
//! store deduplicates on it, and the history records a single operation whose
//! invocation is the first attempt and whose return is the definite answer.
//! Recording each attempt separately would report writes the store never made,
//! and the linearizability checker would reject a correct system.
//!
//! An operation the client gives up on stays in the history with no return at
//! all. That is the honest record: it may have happened, it may not, and the
//! checker is expected to consider both.

use crate::checker::invariants::{op_shown, op_shown_str};
use crate::checker::linearizability::{completed_at, History};
use crate::checker::operation::{outcome_text, outcome_words, Operation, OperationView};
use crate::count::{bump, count_up};
use crate::kvstore::log::{Op, OpView};
use crate::kvstore::machine::{ClientMsg, ClientMsgView, Outcome, OutcomeView};
use crate::kvstore::table::KeyTable;
use crate::kvstore::wire::{decoded, Message, MessageView};
use crate::sim_io::clock::{TimerHandle, TimerTag};
use crate::sim_io::effect::{Effect, IoState};
use crate::sim_io::Io;
use crate::simcore::rng::{law_below_in_range, Rng};
use crate::simcore::trace::Level;
use crate::simcore::{Nanos, NodeId};
use crate::text::{copy_opt, decimal, opt_text, own, put_num};
use vstd::prelude::*;

verus! {

pub const TIMER_REQUEST: TimerTag = 1;

pub const TIMER_THINK: TimerTag = 2;

#[derive(Clone, Copy, Debug, PartialEq, Eq)]
pub struct WorkloadConfig {
    pub read_weight: u32,
    pub write_weight: u32,
    pub cas_weight: u32,
    pub delete_weight: u32,
    /// Number of distinct keys. Fewer keys means more contention, which is
    /// where the interesting histories are.
    pub keys: usize,
    /// Pause between finishing one operation and starting the next.
    pub think_time: (Nanos, Nanos),
    /// How long to wait for a reply before trying another server.
    pub request_timeout: Nanos,
    /// Attempts before the client gives up and records an unknown outcome.
    pub max_attempts: u32,
}

impl WorkloadConfig {
    /// The usual mix.
    pub open spec fn standard() -> WorkloadConfig {
        WorkloadConfig {
            read_weight: 40,
            write_weight: 40,
            cas_weight: 15,
            delete_weight: 5,
            keys: 6,
            think_time: (1_000_000, 20_000_000),
            request_timeout: 500_000_000,
            max_attempts: 12,
        }
    }

    /// The weights together, at least one.
    pub open spec fn total_weight(self) -> u64 {
        let sum = self.read_weight + self.write_weight + self.cas_weight + self.delete_weight;
        if sum == 0 {
            1
        } else {
            sum as u64
        }
    }
}

impl Default for WorkloadConfig {
    fn default() -> (r: WorkloadConfig)
        ensures
            r == WorkloadConfig::standard(),
    {
        WorkloadConfig {
            read_weight: 40,
            write_weight: 40,
            cas_weight: 15,
            delete_weight: 5,
            keys: 6,
            think_time: (1_000_000, 20_000_000),
            request_timeout: 500_000_000,
            max_attempts: 12,
        }
    }
}

/// An operation that is under way.
#[derive(Debug)]
pub struct InFlight {
    /// Identifies this operation in the history.
    pub history_id: u64,
    /// Deduplication token: every retry reuses it.
    pub seq: u64,
    /// Distinguishes replies to this attempt from replies to earlier ones.
    pub req_id: u64,
    pub op: Op,
    pub attempts: u32,
    pub timer: Option<TimerHandle>,
}

/// An operation that is under way, its strings as sequences of characters.
pub struct InFlightView {
    pub history_id: u64,
    pub seq: u64,
    pub req_id: u64,
    pub op: OpView,
    pub attempts: u32,
    pub timer: Option<TimerHandle>,
}

impl View for InFlight {
    type V = InFlightView;

    open spec fn view(&self) -> InFlightView {
        InFlightView {
            history_id: self.history_id,
            seq: self.seq,
            req_id: self.req_id,
            op: self.op@,
            attempts: self.attempts,
            timer: self.timer,
        }
    }
}

#[derive(Clone, Copy, Debug, PartialEq, Eq)]
pub struct ClientStats {
    pub started: u64,
    pub completed: u64,
    pub abandoned: u64,
    pub retries: u64,
    pub redirects: u64,
    pub stale_replies: u64,
}

impl ClientStats {
    /// Nothing counted yet.
    pub open spec fn zero() -> ClientStats {
        ClientStats {
            started: 0,
            completed: 0,
            abandoned: 0,
            retries: 0,
            redirects: 0,
            stale_replies: 0,
        }
    }
}

impl Default for ClientStats {
    fn default() -> (r: ClientStats)
        ensures
            r == ClientStats::zero(),
    {
        ClientStats {
            started: 0,
            completed: 0,
            abandoned: 0,
            retries: 0,
            redirects: 0,
            stale_replies: 0,
        }
    }
}

#[derive(Debug)]
pub struct Client {
    pub id: u32,
    pub node: NodeId,
    pub servers: Vec<NodeId>,
    /// Who this client currently believes is the leader.
    pub target: usize,
    pub seq: u64,
    pub next_req_id: u64,
    pub next_history_id: u64,
    pub inflight: Option<InFlight>,
    /// The last value this client believes each key holds, used to make `cas`
    /// attempts that sometimes succeed.
    pub known: KeyTable<Option<String>>,
    pub rng: Rng,
    pub cfg: WorkloadConfig,
    pub stopped: bool,
    pub stats: ClientStats,
}

/// A client as a mathematical value.
#[verifier::ext_equal]
pub struct ClientView {
    pub id: u32,
    pub node: NodeId,
    pub servers: Seq<NodeId>,
    pub target: usize,
    pub seq: u64,
    pub next_req_id: u64,
    pub next_history_id: u64,
    pub inflight: Option<InFlightView>,
    pub known: Map<Seq<char>, Option<Seq<char>>>,
    pub rng: Rng,
    pub cfg: WorkloadConfig,
    pub stopped: bool,
    pub stats: ClientStats,
}

/// What a client believes of each key.
pub open spec fn beliefs(m: Map<Seq<char>, Option<String>>) -> Map<Seq<char>, Option<Seq<char>>> {
    m.map_values(|v: Option<String>| opt_text(v))
}

impl View for Client {
    type V = ClientView;

    open spec fn view(&self) -> ClientView {
        ClientView {
            id: self.id,
            node: self.node,
            servers: self.servers@,
            target: self.target,
            seq: self.seq,
            next_req_id: self.next_req_id,
            next_history_id: self.next_history_id,
            inflight: match self.inflight {
                Some(f) => Some(f@),
                None => None,
            },
            known: beliefs(self.known@),
            rng: self.rng,
            cfg: self.cfg,
            stopped: self.stopped,
            stats: self.stats,
        }
    }
}

/// A client, the history it records and the world it acts on, after a step.
pub struct Acted {
    pub client: ClientView,
    pub history: Seq<OperationView>,
    pub io: IoState,
}

/// The place of a node in a list, from place `i` on.
pub open spec fn place_of(servers: Seq<NodeId>, n: NodeId, i: int) -> Option<int>
    decreases servers.len() - i,
{
    if i >= servers.len() {
        None
    } else if servers[i] == n {
        Some(i)
    } else {
        place_of(servers, n, i + 1)
    }
}

/// The number an operation has in the history.
pub open spec fn recorded_id(client: u32, history_id: u64) -> u64 {
    (client as u64) << 32 | history_id
}

/// One more attempt.
pub open spec fn next_attempt(n: u32) -> u32 {
    if n < u32::MAX {
        (n + 1) as u32
    } else {
        n
    }
}

impl ClientView {
    /// A client that has done nothing yet.
    pub open spec fn made(
        id: u32,
        node: NodeId,
        servers: Seq<NodeId>,
        seed: u64,
        cfg: WorkloadConfig,
    ) -> ClientView {
        let (target, rng) = Rng::seeded(seed).below_of(servers.len() as u64);
        ClientView {
            id,
            node,
            servers,
            target: target as usize,
            seq: 0,
            next_req_id: 1,
            next_history_id: 1,
            inflight: None,
            known: Map::empty(),
            rng,
            cfg,
            stopped: false,
            stats: ClientStats::zero(),
        }
    }

    /// The client has someone to talk to.
    pub open spec fn wf(self) -> bool {
        self.target < self.servers.len()
    }

    /// The client after it turned to another server.
    pub open spec fn rotated(self) -> ClientView {
        let n = self.servers.len();
        if n > 1 {
            let (next, rng) = self.rng.below_of(n as u64);
            ClientView {
                target: if next == self.target {
                    ((next + 1) % (n as int)) as usize
                } else {
                    next as usize
                },
                rng,
                ..self
            }
        } else {
            self
        }
    }

    /// The operation a client does next, and the generator after choosing it.
    pub open spec fn picked(self) -> (OpView, Rng) {
        let (k, r) = self.rng.below_of(self.cfg.keys as u64);
        let (p, rng) = r.below_of(self.cfg.total_weight());
        let key = "k"@ + decimal(k as nat);
        let value = "c"@ + decimal(self.id as nat) + "v"@ + decimal(bump(self.seq) as nat);
        let c = self.cfg;
        let op = if p < c.read_weight {
            OpView::Get { key }
        } else if p < c.read_weight + c.write_weight {
            OpView::Put { key, value }
        } else if p < c.read_weight + c.write_weight + c.cas_weight {
            OpView::Cas {
                key,
                expect: if self.known.contains_key(key) {
                    self.known[key]
                } else {
                    None
                },
                value,
            }
        } else {
            OpView::Delete { key }
        };
        (op, rng)
    }

    /// What a client believes once an operation was answered.
    pub open spec fn remembered(self, op: OpView, outcome: OutcomeView) -> ClientView {
        let known = match (op, outcome) {
            (OpView::Get { key }, OutcomeView::Value(v)) => self.known.insert(key, v),
            (OpView::Put { key, value }, OutcomeView::Written) => self.known.insert(
                key,
                Some(value),
            ),
            (OpView::Delete { key }, OutcomeView::Written) => self.known.insert(key, None),
            (OpView::Cas { key, expect: _, value }, OutcomeView::Cas(ok)) => if ok {
                self.known.insert(key, Some(value))
            } else {
                // The idea of the value was wrong: a later read refreshes it.
                self.known.remove(key)
            },
            _ => self.known,
        };
        ClientView { known, ..self }
    }

    /// The current operation is sent (again) to the current target.
    pub open spec fn attempt(self, io: IoState) -> (ClientView, IoState) {
        match self.inflight {
            None => (self, io),
            Some(f) => {
                let attempts = next_attempt(f.attempts);
                let req_id = bump(self.next_req_id);
                let to = self.servers[self.target as int];
                let msg = MessageView::Client(
                    ClientMsgView::Request { req_id, client: self.id, seq: f.seq, op: f.op },
                );
                let words = "c"@ + decimal(self.id as nat) + " attempt "@ + decimal(attempts as nat)
                    + " of seq "@ + decimal(f.seq as nat) + " -> "@ + to.label() + ": "@ + op_shown(
                    f.op,
                );
                (
                    ClientView {
                        next_req_id: req_id,
                        inflight: Some(
                            InFlightView {
                                attempts,
                                req_id,
                                timer: Some(TimerHandle(io.timer())),
                                ..f
                            },
                        ),
                        ..self
                    },
                    io.did(
                        Effect::SetTimer { delay: self.cfg.request_timeout, tag: TIMER_REQUEST },
                    ).trace(Level::Debug, "client"@, words).did(
                        Effect::Send { to, payload: msg.wire() },
                    ),
                )
            },
        }
    }

    /// The next operation begins, unless one is already running.
    pub open spec fn begin(self, io: IoState, history: Seq<OperationView>, now: Nanos) -> Acted {
        if self.stopped || self.inflight is Some {
            Acted { client: self, history, io }
        } else {
            let (op, rng) = self.picked();
            let seq = bump(self.seq);
            let (client, out) = ClientView {
                seq,
                next_history_id: bump(self.next_history_id),
                stats: ClientStats { started: bump(self.stats.started), ..self.stats },
                inflight: Some(
                    InFlightView {
                        history_id: self.next_history_id,
                        seq,
                        req_id: 0,
                        op,
                        attempts: 0,
                        timer: None,
                    },
                ),
                rng,
                ..self
            }.attempt(io);
            Acted {
                client,
                history: history.push(
                    OperationView {
                        id: recorded_id(self.id, self.next_history_id),
                        client: self.id,
                        op,
                        invoked: now,
                        completed: None,
                        outcome: None,
                    },
                ),
                io: out,
            }
        }
    }

    /// The client pauses before its next operation.
    pub open spec fn think(self, io: IoState, history: Seq<OperationView>, now: Nanos) -> Acted {
        if self.stopped {
            Acted { client: self, history, io }
        } else {
            let (delay, rng) = self.rng.range_of(self.cfg.think_time.0, self.cfg.think_time.1);
            let client = ClientView { rng, ..self };
            if delay == 0 {
                client.begin(io, history, now)
            } else {
                Acted { client, history, io: io.did(Effect::SetTimer { delay, tag: TIMER_THINK }) }
            }
        }
    }

    /// The attempt's timer, where one is running, is cancelled.
    pub open spec fn untimed(f: InFlightView, io: IoState) -> IoState {
        match f.timer {
            Some(h) => io.did(Effect::CancelTimer { handle: h.0 }),
            None => io,
        }
    }

    /// The current operation is tried again, or given up. One that is given up
    /// stays in the history without a return: it may have committed.
    pub open spec fn retry(self, io: IoState, history: Seq<OperationView>, now: Nanos) -> Acted {
        match self.inflight {
            None => Acted { client: self, history, io },
            Some(f) => {
                let cut = ClientView::untimed(f, io);
                if f.attempts >= self.cfg.max_attempts {
                    let words = "c"@ + decimal(self.id as nat) + " abandoning seq "@ + decimal(
                        f.seq as nat,
                    ) + " after "@ + decimal(f.attempts as nat) + " attempts"@;
                    ClientView {
                        inflight: None,
                        stats: ClientStats { abandoned: bump(self.stats.abandoned), ..self.stats },
                        ..self
                    }.think(cut.trace(Level::Info, "client"@, words), history, now)
                } else {
                    let (client, out) = ClientView {
                        inflight: Some(InFlightView { timer: None, ..f }),
                        stats: ClientStats { retries: bump(self.stats.retries), ..self.stats },
                        ..self
                    }.attempt(cut);
                    Acted { client, history, io: out }
                }
            },
        }
    }

    /// The current operation was answered.
    pub open spec fn finish(
        self,
        io: IoState,
        history: Seq<OperationView>,
        now: Nanos,
        outcome: OutcomeView,
    ) -> Acted {
        match self.inflight {
            None => Acted { client: self, history, io },
            Some(f) => {
                let words = "c"@ + decimal(self.id as nat) + " seq "@ + decimal(f.seq as nat)
                    + " => "@ + outcome_words(outcome);
                ClientView {
                    inflight: None,
                    stats: ClientStats { completed: bump(self.stats.completed), ..self.stats },
                    ..self.remembered(f.op, outcome)
                }.think(
                    ClientView::untimed(f, io).trace(Level::Debug, "client"@, words).observe(
                        "client_done"@,
                        seq![self.id as u64, f.seq],
                    ),
                    completed_at(history, recorded_id(self.id, f.history_id), now, outcome),
                    now,
                )
            },
        }
    }

    /// The client noticed a reply it has no use for.
    pub open spec fn ignored(self) -> ClientView {
        ClientView {
            stats: ClientStats { stale_replies: bump(self.stats.stale_replies), ..self.stats },
            ..self
        }
    }

    /// The client after it was told to look elsewhere.
    pub open spec fn redirected(self, outcome: OutcomeView) -> ClientView {
        match outcome {
            OutcomeView::NotLeader(hint) => {
                let c = ClientView {
                    stats: ClientStats { redirects: bump(self.stats.redirects), ..self.stats },
                    ..self
                };
                match hint {
                    Some(n) => match place_of(self.servers, n, 0) {
                        Some(i) => ClientView { target: i as usize, ..c },
                        None => c,
                    },
                    None => c.rotated(),
                }
            },
            _ => self.rotated(),
        }
    }

    /// The reply some bytes hold, where they hold one: which attempt it answers
    /// and how.
    pub open spec fn reply_in(bytes: Seq<u8>) -> Option<(u64, OutcomeView)> {
        match decoded(bytes) {
            Ok(MessageView::Client(ClientMsgView::Reply { req_id, outcome })) => Some(
                (req_id, outcome),
            ),
            _ => None,
        }
    }

    /// Bytes arrived.
    #[verifier::opaque]
    pub open spec fn on_bytes(
        self,
        io: IoState,
        history: Seq<OperationView>,
        now: Nanos,
        bytes: Seq<u8>,
    ) -> Acted {
        match (ClientView::reply_in(bytes), self.inflight) {
            (Some((req_id, outcome)), Some(f)) => if f.req_id != req_id {
                Acted { client: self.ignored(), history, io }
            } else if outcome.is_definite() {
                self.finish(io, history, now, outcome)
            } else {
                self.redirected(outcome).retry(io, history, now)
            },
            _ => Acted { client: self.ignored(), history, io },
        }
    }

    /// A timer fired.
    #[verifier::opaque]
    pub open spec fn on_timer(
        self,
        io: IoState,
        history: Seq<OperationView>,
        now: Nanos,
        tag: TimerTag,
    ) -> Acted {
        if tag == TIMER_REQUEST {
            if self.inflight is Some {
                self.rotated().retry(io, history, now)
            } else {
                Acted { client: self, history, io }
            }
        } else if tag == TIMER_THINK {
            self.begin(io, history, now)
        } else {
            Acted { client: self, history, io }
        }
    }
}

// ---- the client as it runs -----------------------------------------------

proof fn lemma_place(servers: Seq<NodeId>, n: NodeId, i: int)
    requires
        0 <= i,
    ensures
        match place_of(servers, n, i) {
            Some(k) => i <= k < servers.len() && servers[k] == n,
            None => true,
        },
    decreases servers.len() - i,
{
    if i < servers.len() && servers[i] != n {
        lemma_place(servers, n, i + 1);
    }
}

impl Client {
    /// The client has someone to talk to, and its table is in order.
    pub open spec fn wf(&self) -> bool {
        &&& self@.wf()
        &&& self.known.wf()
    }

    pub fn new(id: u32, node: NodeId, servers: Vec<NodeId>, seed: u64, cfg: WorkloadConfig) -> (r: Client)
        ensures
            r@ == ClientView::made(id, node, servers@, seed, cfg),
            r.known.wf(),
            servers@.len() > 0 ==> r.wf(),
    {
        let mut rng = Rng::new(seed);
        let n: usize = servers.len();
        let target: usize = rng.below(n as u64) as usize;
        let known: KeyTable<Option<String>> = KeyTable::new();
        let r = Client {
            id,
            node,
            servers,
            target,
            seq: 0,
            next_req_id: 1,
            next_history_id: 1,
            inflight: None,
            known,
            rng,
            cfg,
            stopped: false,
            stats: ClientStats::default(),
        };
        assert(r@.known =~= Map::<Seq<char>, Option<Seq<char>>>::empty());
        r
    }

    pub fn id(&self) -> (r: u32)
        ensures
            r == self@.id,
    {
        self.id
    }

    pub fn node(&self) -> (r: NodeId)
        ensures
            r == self@.node,
    {
        self.node
    }

    pub fn stats(&self) -> (r: ClientStats)
        ensures
            r == self@.stats,
    {
        self.stats
    }

    pub fn is_idle(&self) -> (r: bool)
        ensures
            r == (self@.inflight is None),
    {
        self.inflight.is_none()
    }

    /// Stop starting new operations. Anything in flight is still allowed to
    /// finish, so the history ends cleanly.
    pub fn stop(&mut self)
        ensures
            final(self)@ == (ClientView { stopped: true, ..old(self)@ }),
            final(self).wf() == old(self).wf(),
    {
        self.stopped = true;
    }

    pub fn resume(&mut self)
        ensures
            final(self)@ == (ClientView { stopped: false, ..old(self)@ }),
            final(self).wf() == old(self).wf(),
    {
        self.stopped = false;
    }

    /// Begin the next operation, unless one is already running.
    pub fn begin<I: Io + ?Sized>(&mut self, io: &mut I, history: &mut History, now: Nanos)
        requires
            old(self).wf(),
            old(io).valid(),
            old(history).wf(),
        ensures
            final(self).wf(),
            final(io).valid(),
            final(io).origin() == old(io).origin(),
            final(history).wf(),
            (Acted { client: final(self)@, history: final(history)@, io: final(io).state() })
                == old(self)@.begin(old(io).state(), old(history)@, now),
    {
        if self.stopped || self.inflight.is_some() {
            return;
        }
        let op = self.pick_op();
        self.seq = count_up(self.seq);
        let history_id: u64 = self.next_history_id;
        self.next_history_id = count_up(self.next_history_id);
        self.stats.started = count_up(self.stats.started);
        history.push(
            Operation {
                id: (self.id as u64) << 32 | history_id,
                client: self.id,
                op: op.clone(),
                invoked: now,
                completed: None,
                outcome: None,
            },
        );
        self.inflight = Some(
            InFlight { history_id, seq: self.seq, req_id: 0, op, attempts: 0, timer: None },
        );
        self.attempt(io);
    }

    /// Send (or resend) the current operation to the current target.
    fn attempt<I: Io + ?Sized>(&mut self, io: &mut I)
        requires
            old(self).wf(),
            old(io).valid(),
        ensures
            final(self).wf(),
            final(io).valid(),
            final(io).origin() == old(io).origin(),
            (final(self)@, final(io).state()) == old(self)@.attempt(old(io).state()),
    {
        let mut f = match self.inflight.take() {
            Some(f) => f,
            None => {
                return;
            },
        };
        let ghost op = f.op@;
        if f.attempts < u32::MAX {
            f.attempts = f.attempts + 1;
        }
        self.next_req_id = count_up(self.next_req_id);
        f.req_id = self.next_req_id;
        let to = self.servers[self.target];
        let msg = Message::Client(
            ClientMsg::Request {
                req_id: f.req_id,
                client: self.id,
                seq: f.seq,
                op: f.op.clone(),
            },
        );
        let handle = io.set_timer(self.cfg.request_timeout, TIMER_REQUEST);
        f.timer = Some(handle);
        let mut s = own("c");
        put_num(&mut s, self.id as u64);
        s.append(" attempt ");
        put_num(&mut s, f.attempts as u64);
        s.append(" of seq ");
        put_num(&mut s, f.seq);
        s.append(" -> ");
        s.append(to.text().as_str());
        s.append(": ");
        s.append(op_shown_str(&f.op).as_str());
        io.trace(Level::Debug, "client", s);
        io.send(to, msg.encode().as_slice());
        self.inflight = Some(f);
    }

    pub fn on_bytes<I: Io + ?Sized>(
        &mut self,
        io: &mut I,
        history: &mut History,
        now: Nanos,
        bytes: &[u8],
    )
        requires
            old(self).wf(),
            old(io).valid(),
            old(history).wf(),
        ensures
            final(self).wf(),
            final(io).valid(),
            final(io).origin() == old(io).origin(),
            final(history).wf(),
            (Acted { client: final(self)@, history: final(history)@, io: final(io).state() })
                == old(self)@.on_bytes(old(io).state(), old(history)@, now, bytes@),
    {
        proof {
            reveal(ClientView::on_bytes);
        }
        let (req_id, outcome) = match Message::decode(bytes) {
            Ok(Message::Client(ClientMsg::Reply { req_id, outcome })) => (req_id, outcome),
            _ => {
                // Corrupted, or something a client has no business receiving.
                self.stats.stale_replies = count_up(self.stats.stale_replies);
                return;
            },
        };
        assert(ClientView::reply_in(bytes@) == Some((req_id, outcome@)));
        let current = match &self.inflight {
            Some(f) => f.req_id == req_id,
            None => false,
        };
        if !current {
            // A reply to an attempt already given up on. Harmless, but it must
            // not be mistaken for an answer to the current attempt.
            self.stats.stale_replies = count_up(self.stats.stale_replies);
            return;
        }
        if outcome.is_definite() {
            self.finish(io, history, now, outcome);
            return;
        }
        // Not an answer: find another server and try again with the same seq.
        match &outcome {
            Outcome::NotLeader(hint) => {
                self.stats.redirects = count_up(self.stats.redirects);
                match *hint {
                    Some(n) => {
                        let place = self.find_server(n);
                        if let Some(i) = place {
                            self.target = i;
                        }
                    },
                    None => self.rotate_target(),
                }
            },
            _ => self.rotate_target(),
        }
        assert(self@ =~= old(self)@.redirected(outcome@));
        self.retry(io, history, now);
    }

    fn find_server(&self, n: NodeId) -> (r: Option<usize>)
        ensures
            match r {
                Some(i) => place_of(self@.servers, n, 0) == Some(i as int) && i < self@.servers.len(),
                None => place_of(self@.servers, n, 0) is None,
            },
    {
        let mut i: usize = 0;
        while i < self.servers.len()
            invariant
                i <= self.servers@.len(),
                place_of(self.servers@, n, 0) == place_of(self.servers@, n, i as int),
            decreases self.servers@.len() - i,
        {
            if self.servers[i] == n {
                return Some(i);
            }
            i += 1;
        }
        None
    }

    pub fn on_timer<I: Io + ?Sized>(
        &mut self,
        io: &mut I,
        history: &mut History,
        now: Nanos,
        tag: TimerTag,
    )
        requires
            old(self).wf(),
            old(io).valid(),
            old(history).wf(),
        ensures
            final(self).wf(),
            final(io).valid(),
            final(io).origin() == old(io).origin(),
            final(history).wf(),
            (Acted { client: final(self)@, history: final(history)@, io: final(io).state() })
                == old(self)@.on_timer(old(io).state(), old(history)@, now, tag),
    {
        proof {
            reveal(ClientView::on_timer);
        }
        if tag == TIMER_REQUEST {
            if self.inflight.is_some() {
                // The server may be down, partitioned away, or simply slow.
                self.rotate_target();
                self.retry(io, history, now);
            }
        } else if tag == TIMER_THINK {
            self.begin(io, history, now);
        }
    }

    fn retry<I: Io + ?Sized>(&mut self, io: &mut I, history: &mut History, now: Nanos)
        requires
            old(self).wf(),
            old(io).valid(),
            old(history).wf(),
        ensures
            final(self).wf(),
            final(io).valid(),
            final(io).origin() == old(io).origin(),
            final(history).wf(),
            (Acted { client: final(self)@, history: final(history)@, io: final(io).state() })
                == old(self)@.retry(old(io).state(), old(history)@, now),
    {
        let mut f = match self.inflight.take() {
            Some(f) => f,
            None => {
                return;
            },
        };
        if let Some(h) = f.timer {
            io.cancel_timer(h);
        }
        if f.attempts >= self.cfg.max_attempts {
            // Give up. The operation stays in the history without a return:
            // it may have committed, and the checker has to allow for that.
            self.stats.abandoned = count_up(self.stats.abandoned);
            let mut s = own("c");
            put_num(&mut s, self.id as u64);
            s.append(" abandoning seq ");
            put_num(&mut s, f.seq);
            s.append(" after ");
            put_num(&mut s, f.attempts as u64);
            s.append(" attempts");
            io.trace(Level::Info, "client", s);
            self.think(io, history, now);
            return;
        }
        f.timer = None;
        self.inflight = Some(f);
        self.stats.retries = count_up(self.stats.retries);
        self.attempt(io);
    }

    fn finish<I: Io + ?Sized>(
        &mut self,
        io: &mut I,
        history: &mut History,
        now: Nanos,
        outcome: Outcome,
    )
        requires
            old(self).wf(),
            old(io).valid(),
            old(history).wf(),
        ensures
            final(self).wf(),
            final(io).valid(),
            final(io).origin() == old(io).origin(),
            final(history).wf(),
            (Acted { client: final(self)@, history: final(history)@, io: final(io).state() })
                == old(self)@.finish(old(io).state(), old(history)@, now, outcome@),
    {
        let f = match self.inflight.take() {
            Some(f) => f,
            None => {
                return;
            },
        };
        if let Some(h) = f.timer {
            io.cancel_timer(h);
        }
        self.stats.completed = count_up(self.stats.completed);
        self.remember(&f.op, &outcome);
        let mut s = own("c");
        put_num(&mut s, self.id as u64);
        s.append(" seq ");
        put_num(&mut s, f.seq);
        s.append(" => ");
        s.append(outcome_text(&outcome).as_str());
        let id: u64 = (self.id as u64) << 32 | f.history_id;
        history.complete(id, now, outcome);
        io.trace(Level::Debug, "client", s);
        let args: [u64; 2] = [self.id as u64, f.seq];
        io.observe("client_done", &args);
        assert(args@ =~= seq![self.id as u64, f.seq]);
        self.think(io, history, now);
    }

    fn think<I: Io + ?Sized>(&mut self, io: &mut I, history: &mut History, now: Nanos)
        requires
            old(self).wf(),
            old(io).valid(),
            old(history).wf(),
        ensures
            final(self).wf(),
            final(io).valid(),
            final(io).origin() == old(io).origin(),
            final(history).wf(),
            (Acted { client: final(self)@, history: final(history)@, io: final(io).state() })
                == old(self)@.think(old(io).state(), old(history)@, now),
    {
        if self.stopped {
            return;
        }
        let delay: u64 = self.rng.range(self.cfg.think_time.0, self.cfg.think_time.1);
        if delay == 0 {
            self.begin(io, history, now);
        } else {
            io.set_timer(delay, TIMER_THINK);
        }
    }

    /// Move to a different server, chosen at random rather than round-robin so
    /// a whole fleet of clients does not stampede the same node.
    pub fn rotate_target(&mut self)
        ensures
            final(self)@ == old(self)@.rotated(),
            final(self).known == old(self).known,
            old(self)@.wf() ==> final(self)@.wf(),
            old(self)@.servers.len() > 1 ==> final(self)@.target != old(self)@.target
                && final(self)@.wf(),
    {
        let n: usize = self.servers.len();
        if n > 1 {
            let next: usize = self.rng.below(n as u64) as usize;
            if next == self.target {
                proof {
                    if next + 1 < n {
                        vstd::arithmetic::div_mod::lemma_small_mod((next + 1) as nat, n as nat);
                    } else {
                        vstd::arithmetic::div_mod::lemma_mod_self_0(n as int);
                    }
                }
                self.target = if next + 1 < n {
                    next + 1
                } else {
                    0
                };
            } else {
                self.target = next;
            }
        }
    }

    /// Note what an answer says of the value of a key.
    pub fn remember(&mut self, op: &Op, outcome: &Outcome)
        requires
            old(self).known.wf(),
        ensures
            final(self).known.wf(),
            final(self)@ == old(self)@.remembered(op@, outcome@),
    {
        let ghost before = self.known@;
        match (op, outcome) {
            (Op::Get { key }, Outcome::Value(v)) => {
                self.known.insert(key.clone(), copy_opt(v));
            },
            (Op::Put { key, value }, Outcome::Written) => {
                self.known.insert(key.clone(), Some(value.clone()));
            },
            (Op::Delete { key }, Outcome::Written) => {
                self.known.insert(key.clone(), None);
            },
            (Op::Cas { key, expect: _, value }, Outcome::Cas(ok)) => {
                if *ok {
                    self.known.insert(key.clone(), Some(value.clone()));
                } else {
                    // The idea of the value was wrong; forget it and let a
                    // later read refresh it.
                    self.known.remove(key.as_str());
                }
            },
            _ => {},
        }
        assert(self@.known =~= old(self)@.remembered(op@, outcome@).known);
    }

    /// Choose the next operation.
    pub fn pick_op(&mut self) -> (r: Op)
        requires
            old(self).known.wf(),
        ensures
            (r@, final(self)@.rng) == old(self)@.picked(),
            final(self)@ == (ClientView { rng: final(self)@.rng, ..old(self)@ }),
            final(self).known == old(self).known,
    {
        let k: u64 = self.rng.below(self.cfg.keys as u64);
        let mut key = own("k");
        put_num(&mut key, k);
        let mut value = own("c");
        put_num(&mut value, self.id as u64);
        value.append("v");
        put_num(&mut value, count_up(self.seq));
        let c = self.cfg;
        let reads: u64 = c.read_weight as u64;
        let writes: u64 = reads + c.write_weight as u64;
        let swaps: u64 = writes + c.cas_weight as u64;
        let sum: u64 = swaps + c.delete_weight as u64;
        let total: u64 = if sum == 0 {
            1
        } else {
            sum
        };
        let pick: u64 = self.rng.below(total);
        if pick < reads {
            return Op::Get { key };
        }
        if pick < writes {
            return Op::Put { key, value };
        }
        if pick < swaps {
            let expect = match self.known.get(key.as_str()) {
                Some(v) => copy_opt(v),
                None => None,
            };
            return Op::Cas { key, expect, value };
        }
        Op::Delete { key }
    }
}

// ---- laws ----------------------------------------------------------------

/// A retry is the same operation: it keeps its `seq`, its place in the history
/// and what it asks for, and the history gains nothing from it.
pub proof fn law_a_retry_is_the_same_operation(
    c: ClientView,
    io: IoState,
    history: Seq<OperationView>,
    now: Nanos,
)
    requires
        c.inflight is Some,
        c.inflight->Some_0.attempts < c.cfg.max_attempts,
    ensures
        ({
            let a = c.retry(io, history, now);
            let (f, g) = (c.inflight->Some_0, a.client.inflight->Some_0);
            &&& a.history == history
            &&& a.client.inflight is Some
            &&& g.seq == f.seq
            &&& g.history_id == f.history_id
            &&& g.op == f.op
            &&& g.attempts == f.attempts + 1
            &&& a.io.log.last() == (Effect::Send {
                to: c.servers[c.target as int],
                payload: MessageView::Client(
                    ClientMsgView::Request { req_id: g.req_id, client: c.id, seq: f.seq, op: f.op },
                ).wire(),
            })
        }),
{
}

/// A client that gives an operation up records no answer for it: every earlier
/// operation stays in the history as it was.
pub proof fn law_abandoned_operations_stay_open(
    c: ClientView,
    io: IoState,
    history: Seq<OperationView>,
    now: Nanos,
)
    requires
        c.inflight is Some,
        c.inflight->Some_0.attempts >= c.cfg.max_attempts,
    ensures
        ({
            let a = c.retry(io, history, now);
            &&& history.is_prefix_of(a.history)
            &&& a.client.stats.abandoned == bump(c.stats.abandoned)
            &&& a.client.stats.completed == c.stats.completed
        }),
{
    let a = c.retry(io, history, now);
    assert(history =~= a.history.take(history.len() as int));
}

/// Only a definite answer to the current attempt is recorded. Anything else a
/// client receives leaves every recorded operation as it was.
pub proof fn law_only_answers_are_recorded(
    c: ClientView,
    io: IoState,
    history: Seq<OperationView>,
    now: Nanos,
    bytes: Seq<u8>,
)
    requires
        ClientView::reply_in(bytes) is None || c.inflight is None || ({
            let (req_id, outcome) = ClientView::reply_in(bytes)->Some_0;
            req_id != c.inflight->Some_0.req_id || !outcome.is_definite()
        }),
    ensures
        ({
            let a = c.on_bytes(io, history, now, bytes);
            &&& history.is_prefix_of(a.history)
            &&& a.client.stats.completed == c.stats.completed
        }),
{
    reveal(ClientView::on_bytes);
    let a = c.on_bytes(io, history, now, bytes);
    assert(history =~= a.history.take(history.len() as int));
}

/// A client has at most one operation under way: it begins none before the last
/// one was answered or given up.
pub proof fn law_one_operation_at_a_time(
    c: ClientView,
    io: IoState,
    history: Seq<OperationView>,
    now: Nanos,
)
    requires
        c.inflight is Some,
    ensures
        c.begin(io, history, now) == (Acted { client: c, history, io }),
{
}

/// Operations stay within the configured keys and the configured mix: one whose
/// weight is zero is never chosen while any other has weight, and a value
/// written names the client and the operation it belongs to.
pub proof fn law_operations_stay_within_the_mix(c: ClientView)
    requires
        c.cfg.keys > 0,
        c.cfg.read_weight + c.cfg.write_weight + c.cfg.cas_weight + c.cfg.delete_weight > 0,
    ensures
        ({
            let op = c.picked().0;
            let value = "c"@ + decimal(c.id as nat) + "v"@ + decimal(bump(c.seq) as nat);
            &&& exists|n: nat| n < c.cfg.keys && op.key() == Some("k"@ + #[trigger] decimal(n))
            &&& !(op is Noop)
            &&& op is Get ==> c.cfg.read_weight > 0
            &&& op is Put ==> c.cfg.write_weight > 0 && op->Put_value == value
            &&& op is Cas ==> c.cfg.cas_weight > 0 && op->Cas_value == value
            &&& op is Delete ==> c.cfg.delete_weight > 0
        }),
{
    let (k, r) = c.rng.below_of(c.cfg.keys as u64);
    law_below_in_range(c.rng, c.cfg.keys as u64);
    law_below_in_range(r, c.cfg.total_weight());
    assert(c.picked().0.key() == Some("k"@ + decimal(k as nat)));
}

} // verus!
