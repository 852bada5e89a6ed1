//! The client protocol and the deterministic state machine behind it.
//!
//! Every command carries `(client, seq)`, and the state machine keeps the last
//! result per client. A retry of the same `seq` is answered from that cache
//! instead of being applied twice. Without it, a client that retries after a
//! lost reply turns one logical `Put` into two applied `Put`s -- and with `Cas`
//! in the mix, that is a lost update.

use crate::bytes::{le_u32, le_u64};
use crate::kvstore::bug::InjectedBug;
use crate::kvstore::codec::{
    at, bind, enc_opt, failed, fits, lemma_at_split, lemma_parse_opt, lemma_parse_u32, lemma_parse_u64, lemma_parse_u8,
    parse_opt, parse_u32, parse_u64, parse_u8, parsed, Dec, DecodeError, Enc, Parsed,
};
use crate::kvstore::log::{lemma_parse_command, parse_command, Command, CommandView, Op, OpView};
use crate::kvstore::table::KeyTable;
use crate::simcore::NodeId;
use crate::text::{copy_opt, opt_text, same_opt};
use std::collections::BTreeMap;
use vstd::prelude::*;

verus! {

/// What a client is told.
///
/// An answer of [`Outcome::NotLeader`] or [`Outcome::Dropped`] is *not* a
/// failure -- it means "unknown, ask again". The request may still be sitting in
/// a log somewhere and may yet commit. Clients must retry such requests with the
/// same `seq`, which is what makes the dedup table meaningful.
#[derive(Debug, PartialEq, Eq)]
pub enum Outcome {
    /// The value a `Get` observed (`None` = absent).
    Value(Option<String>),
    /// A `Put` or `Delete` was applied.
    Written,
    /// A `Cas` was applied; the flag says whether it matched.
    Cas(bool),
    /// Not the leader. Try `hint`, if there is one.
    NotLeader(Option<NodeId>),
    /// Accepted but never resolved here: leadership changed underneath it.
    /// The command may or may not eventually commit.
    Dropped,
}

/// An outcome, its strings as sequences of characters.
pub enum OutcomeView {
    Value(Option<Seq<char>>),
    Written,
    Cas(bool),
    NotLeader(Option<NodeId>),
    Dropped,
}

impl View for Outcome {
    type V = OutcomeView;

    open spec fn view(&self) -> OutcomeView {
        match self {
            Outcome::Value(v) => OutcomeView::Value(opt_text(*v)),
            Outcome::Written => OutcomeView::Written,
            Outcome::Cas(b) => OutcomeView::Cas(*b),
            Outcome::NotLeader(n) => OutcomeView::NotLeader(*n),
            Outcome::Dropped => OutcomeView::Dropped,
        }
    }
}

impl Clone for Outcome {
    fn clone(&self) -> (r: Outcome)
        ensures
            r@ == self@,
    {
        match self {
            Outcome::Value(v) => Outcome::Value(copy_opt(v)),
            Outcome::Written => Outcome::Written,
            Outcome::Cas(b) => Outcome::Cas(*b),
            Outcome::NotLeader(n) => Outcome::NotLeader(*n),
            Outcome::Dropped => Outcome::Dropped,
        }
    }
}

impl OutcomeView {
    /// Whether this answers the question. Anything else means "retry".
    pub open spec fn is_definite(self) -> bool {
        self is Value || self is Written || self is Cas
    }

    /// The bytes of an outcome.
    pub open spec fn bytes(self) -> Seq<u8> {
        match self {
            OutcomeView::Value(v) => seq![0u8] + enc_opt(v),
            OutcomeView::Written => seq![1u8],
            OutcomeView::Cas(ok) => seq![
                2u8,
                if ok {
                    1u8
                } else {
                    0u8
                },
            ],
            OutcomeView::NotLeader(hint) => seq![3u8] + le_u32(
                match hint {
                    Some(n) => n.0,
                    None => u32::MAX,
                },
            ),
            OutcomeView::Dropped => seq![4u8],
        }
    }

    /// Whether the outcome can be read back: its text is short enough, and its
    /// hint is not the number that stands for no hint.
    pub open spec fn fits(self) -> bool {
        match self {
            OutcomeView::Value(Some(s)) => fits(s),
            OutcomeView::NotLeader(hint) => hint != Some(NodeId(u32::MAX)),
            _ => true,
        }
    }
}

/// The next outcome in a buffer.
#[verifier::opaque]
pub open spec fn parse_outcome(b: Seq<u8>, p: int) -> Parsed<OutcomeView> {
    bind(
        parse_u8(b, p),
        |tag: u8, q: int|
            if tag == 0 {
                bind(
                    parse_opt(b, q),
                    |v: Option<Seq<char>>, r: int| parsed(OutcomeView::Value(v), r),
                )
            } else if tag == 1 {
                parsed(OutcomeView::Written, q)
            } else if tag == 2 {
                bind(parse_u8(b, q), |v: u8, r: int| parsed(OutcomeView::Cas(v != 0), r))
            } else if tag == 3 {
                bind(
                    parse_u32(b, q),
                    |n: u32, r: int|
                        parsed(
                            OutcomeView::NotLeader(
                                if n == u32::MAX {
                                    None
                                } else {
                                    Some(NodeId(n))
                                },
                            ),
                            r,
                        ),
                )
            } else if tag == 4 {
                parsed(OutcomeView::Dropped, q)
            } else {
                failed(DecodeError::BadTag(tag), q)
            },
    )
}

/// An outcome is read back as it was written.
pub proof fn lemma_parse_outcome(b: Seq<u8>, p: int, v: OutcomeView)
    requires
        at(b, p, v.bytes()),
        v.fits(),
    ensures
        parse_outcome(b, p) == parsed(v, p + v.bytes().len()),
{
    reveal(parse_outcome);
    match v {
        OutcomeView::Value(o) => {
            lemma_at_split(b, p, seq![0u8], enc_opt(o));
            lemma_parse_u8(b, p, 0);
            lemma_parse_opt(b, p + 1, o);
        },
        OutcomeView::Written => {
            lemma_parse_u8(b, p, 1);
        },
        OutcomeView::Cas(ok) => {
            let flag = if ok {
                1u8
            } else {
                0u8
            };
            assert(v.bytes() =~= seq![2u8] + seq![flag]);
            lemma_at_split(b, p, seq![2u8], seq![flag]);
            lemma_parse_u8(b, p, 2);
            lemma_parse_u8(b, p + 1, flag);
        },
        OutcomeView::NotLeader(hint) => {
            let n = match hint {
                Some(n) => n.0,
                None => u32::MAX,
            };
            lemma_at_split(b, p, seq![3u8], le_u32(n));
            lemma_parse_u8(b, p, 3);
            lemma_parse_u32(b, p + 1, n);
        },
        OutcomeView::Dropped => {
            lemma_parse_u8(b, p, 4);
        },
    }
}

impl Outcome {
    /// Whether this answers the question. Anything else means "retry".
    pub fn is_definite(&self) -> (r: bool)
        ensures
            r == self@.is_definite(),
    {
        match self {
            Outcome::Value(_) => true,
            Outcome::Written => true,
            Outcome::Cas(_) => true,
            _ => false,
        }
    }

    /// Whether two outcomes are the same.
    pub fn same(&self, other: &Outcome) -> (r: bool)
        ensures
            r == (self@ == other@),
    {
        match (self, other) {
            (Outcome::Value(a), Outcome::Value(b)) => same_opt(a, b),
            (Outcome::Written, Outcome::Written) => true,
            (Outcome::Cas(a), Outcome::Cas(b)) => *a == *b,
            (Outcome::NotLeader(a), Outcome::NotLeader(b)) => *a == *b,
            (Outcome::Dropped, Outcome::Dropped) => true,
            _ => false,
        }
    }

    pub fn encode_into(&self, e: &mut Enc)
        ensures
            final(e)@ == old(e)@ + self@.bytes(),
    {
        match self {
            Outcome::Value(v) => {
                let s = match v {
                    Some(t) => Some(t.as_str()),
                    None => None,
                };
                e.u8(0).opt_str(s);
            },
            Outcome::Written => {
                e.u8(1);
            },
            Outcome::Cas(ok) => {
                e.u8(2).u8(
                    if *ok {
                        1
                    } else {
                        0
                    },
                );
            },
            Outcome::NotLeader(hint) => {
                let n: u32 = match hint {
                    Some(n) => n.0,
                    None => u32::MAX,
                };
                e.u8(3).u32(n);
            },
            Outcome::Dropped => {
                e.u8(4);
            },
        }
        assert(e@ =~= old(e)@ + self@.bytes());
    }

    pub fn decode_from(d: &mut Dec) -> (r: Result<Outcome, DecodeError>)
        requires
            old(d).wf(),
        ensures
            final(d).wf(),
            final(d).all() == old(d).all(),
            ({
                let p = parse_outcome(old(d).all(), old(d).at());
                &&& final(d).at() == p.pos
                &&& match r {
                    Ok(v) => p.out == Ok::<OutcomeView, DecodeError>(v@),
                    Err(e) => p.out == Err::<OutcomeView, DecodeError>(e),
                }
            }),
    {
        proof {
            reveal(parse_outcome);
        }
        let tag: u8 = match d.u8() {
            Ok(t) => t,
            Err(e) => return Err(e),
        };
        if tag == 0 {
            return match d.opt_string() {
                Ok(v) => Ok(Outcome::Value(v)),
                Err(e) => Err(e),
            };
        }
        if tag == 1 {
            return Ok(Outcome::Written);
        }
        if tag == 2 {
            return match d.u8() {
                Ok(v) => Ok(Outcome::Cas(v != 0)),
                Err(e) => Err(e),
            };
        }
        if tag == 3 {
            return match d.u32() {
                Ok(n) => Ok(
                    Outcome::NotLeader(
                        if n == u32::MAX {
                            None
                        } else {
                            Some(NodeId(n))
                        },
                    ),
                ),
                Err(e) => Err(e),
            };
        }
        if tag == 4 {
            return Ok(Outcome::Dropped);
        }
        Err(DecodeError::BadTag(tag))
    }
}

/// What travels between clients and servers.
#[derive(Debug, PartialEq, Eq)]
pub enum ClientMsg {
    Request { req_id: u64, client: u32, seq: u64, op: Op },
    Reply { req_id: u64, outcome: Outcome },
}

/// A client message, its strings as sequences of characters.
pub enum ClientMsgView {
    Request { req_id: u64, client: u32, seq: u64, op: OpView },
    Reply { req_id: u64, outcome: OutcomeView },
}

impl View for ClientMsg {
    type V = ClientMsgView;

    open spec fn view(&self) -> ClientMsgView {
        match self {
            ClientMsg::Request { req_id, client, seq, op } => ClientMsgView::Request {
                req_id: *req_id,
                client: *client,
                seq: *seq,
                op: op@,
            },
            ClientMsg::Reply { req_id, outcome } => ClientMsgView::Reply {
                req_id: *req_id,
                outcome: outcome@,
            },
        }
    }
}

impl Clone for ClientMsg {
    fn clone(&self) -> (r: ClientMsg)
        ensures
            r@ == self@,
    {
        match self {
            ClientMsg::Request { req_id, client, seq, op } => ClientMsg::Request {
                req_id: *req_id,
                client: *client,
                seq: *seq,
                op: op.clone(),
            },
            ClientMsg::Reply { req_id, outcome } => ClientMsg::Reply {
                req_id: *req_id,
                outcome: outcome.clone(),
            },
        }
    }
}

impl ClientMsgView {
    /// The bytes of a client message. A request names its client and sequence
    /// number twice: once for routing, once inside the command it proposes.
    pub open spec fn bytes(self) -> Seq<u8> {
        match self {
            ClientMsgView::Request { req_id, client, seq, op } => seq![1u8] + le_u64(req_id)
                + le_u32(client) + le_u64(seq) + (CommandView { client, seq, op }).bytes(),
            ClientMsgView::Reply { req_id, outcome } => seq![2u8] + le_u64(req_id)
                + outcome.bytes(),
        }
    }

    /// Whether the message can be read back.
    pub open spec fn fits(self) -> bool {
        match self {
            ClientMsgView::Request { op, .. } => op.fits(),
            ClientMsgView::Reply { outcome, .. } => outcome.fits(),
        }
    }
}

/// The next client message in a buffer.
#[verifier::opaque]
pub open spec fn parse_client(b: Seq<u8>, p: int) -> Parsed<ClientMsgView> {
    bind(
        parse_u8(b, p),
        |tag: u8, q: int|
            if tag == 1 {
                bind(
                    parse_u64(b, q),
                    |req_id: u64, r: int|
                        bind(
                            parse_u32(b, r),
                            |client: u32, s: int|
                                bind(
                                    parse_u64(b, s),
                                    |seq: u64, t: int|
                                        bind(
                                            parse_command(b, t),
                                            |cmd: CommandView, u: int|
                                                parsed(
                                                    ClientMsgView::Request {
                                                        req_id,
                                                        client,
                                                        seq,
                                                        op: cmd.op,
                                                    },
                                                    u,
                                                ),
                                        ),
                                ),
                        ),
                )
            } else if tag == 2 {
                bind(
                    parse_u64(b, q),
                    |req_id: u64, r: int|
                        bind(
                            parse_outcome(b, r),
                            |outcome: OutcomeView, s: int|
                                parsed(ClientMsgView::Reply { req_id, outcome }, s),
                        ),
                )
            } else {
                failed(DecodeError::BadTag(tag), q)
            },
    )
}

/// A client message is read back as it was written.
pub proof fn lemma_parse_client(b: Seq<u8>, p: int, v: ClientMsgView)
    requires
        at(b, p, v.bytes()),
        v.fits(),
    ensures
        parse_client(b, p) == parsed(v, p + v.bytes().len()),
{
    reveal(parse_client);
    match v {
        ClientMsgView::Request { req_id, client, seq, op } => {
            let cmd = CommandView { client, seq, op };
            let (e1, e2, e3, e4, e5) = (
                seq![1u8],
                le_u64(req_id),
                le_u32(client),
                le_u64(seq),
                cmd.bytes(),
            );
            lemma_at_split(b, p, e1 + e2 + e3 + e4, e5);
            lemma_at_split(b, p, e1 + e2 + e3, e4);
            lemma_at_split(b, p, e1 + e2, e3);
            lemma_at_split(b, p, e1, e2);
            lemma_parse_u8(b, p, 1);
            lemma_parse_u64(b, p + 1, req_id);
            lemma_parse_u32(b, p + 9, client);
            lemma_parse_u64(b, p + 13, seq);
            lemma_parse_command(b, p + 21, cmd);
        },
        ClientMsgView::Reply { req_id, outcome } => {
            lemma_at_split(b, p, seq![2u8] + le_u64(req_id), outcome.bytes());
            lemma_at_split(b, p, seq![2u8], le_u64(req_id));
            lemma_parse_u8(b, p, 2);
            lemma_parse_u64(b, p + 1, req_id);
            lemma_parse_outcome(b, p + 9, outcome);
        },
    }
}

impl ClientMsg {
    pub fn encode_into(&self, e: &mut Enc)
        ensures
            final(e)@ == old(e)@ + self@.bytes(),
    {
        match self {
            ClientMsg::Request { req_id, client, seq, op } => {
                e.u8(1).u64(*req_id).u32(*client).u64(*seq);
                let cmd = Command { client: *client, seq: *seq, op: op.clone() };
                cmd.encode_into(e);
            },
            ClientMsg::Reply { req_id, outcome } => {
                e.u8(2).u64(*req_id);
                outcome.encode_into(e);
            },
        }
        assert(e@ =~= old(e)@ + self@.bytes());
    }

    pub fn decode_from(d: &mut Dec) -> (r: Result<ClientMsg, DecodeError>)
        requires
            old(d).wf(),
        ensures
            final(d).wf(),
            final(d).all() == old(d).all(),
            ({
                let p = parse_client(old(d).all(), old(d).at());
                &&& final(d).at() == p.pos
                &&& match r {
                    Ok(v) => p.out == Ok::<ClientMsgView, DecodeError>(v@),
                    Err(e) => p.out == Err::<ClientMsgView, DecodeError>(e),
                }
            }),
    {
        proof {
            reveal(parse_client);
        }
        let tag: u8 = match d.u8() {
            Ok(t) => t,
            Err(e) => return Err(e),
        };
        if tag == 1 {
            let req_id: u64 = match d.u64() {
                Ok(v) => v,
                Err(e) => return Err(e),
            };
            let client: u32 = match d.u32() {
                Ok(v) => v,
                Err(e) => return Err(e),
            };
            let seq: u64 = match d.u64() {
                Ok(v) => v,
                Err(e) => return Err(e),
            };
            return match Command::decode_from(d) {
                Ok(cmd) => Ok(ClientMsg::Request { req_id, client, seq, op: cmd.op }),
                Err(e) => Err(e),
            };
        }
        if tag == 2 {
            let req_id: u64 = match d.u64() {
                Ok(v) => v,
                Err(e) => return Err(e),
            };
            return match Outcome::decode_from(d) {
                Ok(outcome) => Ok(ClientMsg::Reply { req_id, outcome }),
                Err(e) => Err(e),
            };
        }
        Err(DecodeError::BadTag(tag))
    }
}

// ---- the state machine ---------------------------------------------------

/// The last result handed to a client, so a retry can be answered without
/// applying the command twice.
#[derive(Debug)]
pub struct Session {
    pub seq: u64,
    pub outcome: Outcome,
}

/// A remembered result, its strings as sequences of characters.
pub struct SessionView {
    pub seq: u64,
    pub outcome: OutcomeView,
}

impl View for Session {
    type V = SessionView;

    open spec fn view(&self) -> SessionView {
        SessionView { seq: self.seq, outcome: self.outcome@ }
    }
}

/// The deterministic state machine: a key-value map plus one remembered result
/// per client.
///
/// Kept separate from the server so it can be tested on its own -- and because
/// the linearizability checker needs a reference implementation of exactly
/// these semantics.
#[derive(Debug)]
pub struct StateMachine {
    state: KeyTable<String>,
    sessions: BTreeMap<u32, Session>,
    bug: InjectedBug,
}

/// The state machine as a mathematical value.
#[verifier::ext_equal]
pub struct MachineView {
    pub state: Map<Seq<char>, Seq<char>>,
    pub sessions: Map<u32, SessionView>,
    pub bug: InjectedBug,
}

/// The value under `key`, where there is one.
pub open spec fn lookup(state: Map<Seq<char>, Seq<char>>, key: Seq<char>) -> Option<Seq<char>> {
    if state.contains_key(key) {
        Some(state[key])
    } else {
        None
    }
}

/// What an operation does to the map, and what it answers.
pub open spec fn run_op(state: Map<Seq<char>, Seq<char>>, op: OpView) -> (
    Map<Seq<char>, Seq<char>>,
    OutcomeView,
) {
    match op {
        OpView::Noop => (state, OutcomeView::Written),
        OpView::Get { key } => (state, OutcomeView::Value(lookup(state, key))),
        OpView::Put { key, value } => (state.insert(key, value), OutcomeView::Written),
        OpView::Delete { key } => (state.remove(key), OutcomeView::Written),
        OpView::Cas { key, expect, value } => if lookup(state, key) == expect {
            (state.insert(key, value), OutcomeView::Cas(true))
        } else {
            (state, OutcomeView::Cas(false))
        },
    }
}

impl MachineView {
    /// The machine before its first command.
    pub open spec fn fresh(bug: InjectedBug) -> MachineView {
        MachineView { state: Map::empty(), sessions: Map::empty(), bug }
    }

    /// The remembered result for exactly this request.
    pub open spec fn cached(self, client: u32, seq: u64) -> Option<OutcomeView> {
        if self.bug != InjectedBug::NoDedup && self.sessions.contains_key(client)
            && self.sessions[client].seq == seq {
            Some(self.sessions[client].outcome)
        } else {
            None
        }
    }

    /// Whether the command, or a later one of the same client, has already
    /// been applied.
    pub open spec fn is_duplicate(self, cmd: CommandView) -> bool {
        &&& self.bug != InjectedBug::NoDedup
        &&& self.sessions.contains_key(cmd.client)
        &&& self.sessions[cmd.client].seq >= cmd.seq
    }

    /// The machine after a committed command, and the command's answer.
    pub open spec fn apply(self, cmd: CommandView) -> (MachineView, OutcomeView) {
        if cmd.op is Noop {
            (self, OutcomeView::Written)
        } else if self.is_duplicate(cmd) {
            (self, self.sessions[cmd.client].outcome)
        } else {
            let (state, outcome) = run_op(self.state, cmd.op);
            (
                MachineView {
                    state,
                    sessions: self.sessions.insert(
                        cmd.client,
                        SessionView { seq: cmd.seq, outcome },
                    ),
                    bug: self.bug,
                },
                outcome,
            )
        }
    }
}

impl View for StateMachine {
    type V = MachineView;

    closed spec fn view(&self) -> MachineView {
        MachineView {
            state: self.state@,
            sessions: self.sessions@.map_values(|s: Session| s@),
            bug: self.bug,
        }
    }
}

impl Default for StateMachine {
    fn default() -> (r: StateMachine)
        ensures
            r.wf(),
            r@ == MachineView::fresh(InjectedBug::Off),
    {
        StateMachine::with_bug(InjectedBug::Off)
    }
}

impl StateMachine {
    pub closed spec fn wf(&self) -> bool {
        self.state.wf()
    }

    pub fn new() -> (r: StateMachine)
        ensures
            r.wf(),
            r@ == MachineView::fresh(InjectedBug::Off),
    {
        StateMachine::with_bug(InjectedBug::Off)
    }

    pub fn with_bug(bug: InjectedBug) -> (r: StateMachine)
        ensures
            r.wf(),
            r@ == MachineView::fresh(bug),
    {
        let r = StateMachine { state: KeyTable::new(), sessions: BTreeMap::new(), bug };
        assert(r@ =~= MachineView::fresh(bug));
        r
    }

    pub fn state(&self) -> (r: &KeyTable<String>)
        requires
            self.wf(),
        ensures
            r.wf(),
            r@ == self@.state,
    {
        &self.state
    }

    /// The remembered result for `(client, seq)`, if this exact request has
    /// already been applied.
    pub fn cached(&self, client: u32, seq: u64) -> (r: Option<Outcome>)
        ensures
            match r {
                Some(o) => self@.cached(client, seq) == Some(o@),
                None => self@.cached(client, seq) is None,
            },
    {
        if self.bug == InjectedBug::NoDedup {
            return None;
        }
        match self.sessions.get(&client) {
            Some(s) => if s.seq == seq {
                Some(s.outcome.clone())
            } else {
                None
            },
            None => None,
        }
    }

    /// Run one committed command. Applying the same `(client, seq)` twice is
    /// a no-op that returns the original result.
    pub fn apply(&mut self, cmd: &Command) -> (r: Outcome)
        requires
            old(self).wf(),
        ensures
            final(self).wf(),
            (final(self)@, r@) == old(self)@.apply(cmd@),
    {
        if cmd.is_noop() {
            return Outcome::Written;
        }
        if self.bug != InjectedBug::NoDedup {
            if let Some(s) = self.sessions.get(&cmd.client) {
                if s.seq >= cmd.seq {
                    // Already applied: a duplicate reached the log anyway (two
                    // leaders, or a retry that raced its own original).
                    return s.outcome.clone();
                }
            }
        }
        let outcome = match &cmd.op {
            Op::Noop => Outcome::Written,
            Op::Get { key } => match self.state.get(key.as_str()) {
                Some(v) => Outcome::Value(Some(v.clone())),
                None => Outcome::Value(None),
            },
            Op::Put { key, value } => {
                self.state.insert(key.clone(), value.clone());
                Outcome::Written
            },
            Op::Delete { key } => {
                self.state.remove(key.as_str());
                Outcome::Written
            },
            Op::Cas { key, expect, value } => {
                let now = match self.state.get(key.as_str()) {
                    Some(v) => Some(v.clone()),
                    None => None,
                };
                if same_opt(&now, expect) {
                    self.state.insert(key.clone(), value.clone());
                    Outcome::Cas(true)
                } else {
                    Outcome::Cas(false)
                }
            },
        };
        self.sessions.insert(cmd.client, Session { seq: cmd.seq, outcome: outcome.clone() });
        proof {
            assert(self@ =~= old(self)@.apply(cmd@).0);
        }
        outcome
    }
}

/// A command that was applied is remembered: applying it again, at once or
/// after any commands of other clients, changes nothing and gives the original
/// answer.
pub proof fn law_duplicates_apply_once(m: MachineView, cmd: CommandView, between: Seq<CommandView>)
    requires
        m.bug != InjectedBug::NoDedup,
        !(cmd.op is Noop),
        !m.is_duplicate(cmd),
        forall|i: int| 0 <= i < between.len() ==> (#[trigger] between[i]).client != cmd.client,
    ensures
        ({
            let later = apply_all(m.apply(cmd).0, between);
            later.apply(cmd) == (later, m.apply(cmd).1)
        }),
    decreases between.len(),
{
    let first = m.apply(cmd).0;
    lemma_others_keep_session(first, cmd.client, between);
}

/// The machine after a list of commands.
pub open spec fn apply_all(m: MachineView, cmds: Seq<CommandView>) -> MachineView
    decreases cmds.len(),
{
    if cmds.len() == 0 {
        m
    } else {
        apply_all(m, cmds.drop_last()).apply(cmds.last()).0
    }
}

proof fn lemma_others_keep_session(m: MachineView, client: u32, cmds: Seq<CommandView>)
    requires
        m.sessions.contains_key(client),
        forall|i: int| 0 <= i < cmds.len() ==> (#[trigger] cmds[i]).client != client,
    ensures
        apply_all(m, cmds).sessions.contains_key(client),
        apply_all(m, cmds).sessions[client] == m.sessions[client],
        apply_all(m, cmds).bug == m.bug,
    decreases cmds.len(),
{
    if cmds.len() > 0 {
        lemma_others_keep_session(m, client, cmds.drop_last());
        assert(cmds.last() == cmds[cmds.len() - 1]);
    }
}

/// The remembered result is there for the request that was applied, and for no
/// other sequence number of that client.
pub proof fn law_cached_after_apply(m: MachineView, cmd: CommandView, seq: u64)
    requires
        m.bug != InjectedBug::NoDedup,
        !(cmd.op is Noop),
        !m.is_duplicate(cmd),
    ensures
        m.apply(cmd).0.cached(cmd.client, cmd.seq) == Some(m.apply(cmd).1),
        seq != cmd.seq ==> m.apply(cmd).0.cached(cmd.client, seq) is None,
{
}

/// A read gives back the last write of its key and changes nothing; a delete
/// leaves the key absent; a swap succeeds exactly where the value is the
/// expected one; and no operation touches another key.
pub proof fn law_reads_give_back_writes(
    state: Map<Seq<char>, Seq<char>>,
    key: Seq<char>,
    expect: Option<Seq<char>>,
    value: Seq<char>,
    other: Seq<char>,
)
    ensures
        run_op(state, OpView::Get { key }) == (state, OutcomeView::Value(lookup(state, key))),
        lookup(run_op(state, OpView::Put { key, value }).0, key) == Some(value),
        lookup(run_op(state, OpView::Delete { key }).0, key) is None,
        ({
            let (after, outcome) = run_op(state, OpView::Cas { key, expect, value });
            &&& outcome == OutcomeView::Cas(lookup(state, key) == expect)
            &&& lookup(after, key) == if lookup(state, key) == expect {
                Some(value)
            } else {
                lookup(state, key)
            }
        }),
        other != key ==> {
            &&& lookup(run_op(state, OpView::Put { key, value }).0, other) == lookup(state, other)
            &&& lookup(run_op(state, OpView::Delete { key }).0, other) == lookup(state, other)
            &&& lookup(run_op(state, OpView::Cas { key, expect, value }).0, other) == lookup(
                state,
                other,
            )
        },
{
}

} // verus!
