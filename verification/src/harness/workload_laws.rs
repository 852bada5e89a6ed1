//! What a client does: what it asks for, whom it asks, what it believes and what
//! it records.

use crate::checker::linearizability::{completed_at, last_with_id, lemma_last_with_id};
use crate::checker::operation::OperationView;
use crate::harness::workload::{
    place_of, recorded_id, Acted, ClientStats, ClientView, TIMER_REQUEST, TIMER_THINK,
};
use crate::kvstore::log::OpView;
use crate::kvstore::machine::{ClientMsgView, OutcomeView};
use crate::kvstore::wire::MessageView;
use crate::sim_io::clock::TimerTag;
use crate::sim_io::effect::{Effect, IoState};
use crate::simcore::rng::{law_below_in_range, law_range_in_bounds};
use crate::simcore::{Nanos, NodeId};
use crate::text::decimal;
use vstd::prelude::*;

verus! {

// ---- what is asked for -----------------------------------------------------

/// A compare-and-set expects the value that the client believes its key holds:
/// what it last learnt of it, and nothing where it knows nothing of the key.
pub proof fn law_swaps_expect_what_is_believed(c: ClientView)
    ensures
        c.picked().0 matches OpView::Cas { key, expect, value } ==> {
            &&& c.known.contains_key(key) ==> expect == c.known[key]
            &&& !c.known.contains_key(key) ==> expect is None
        },
{
}

/// What a client was just told of a key is what its next compare-and-set of the
/// key expects.
pub proof fn law_swaps_follow_answers(c: ClientView, key: Seq<char>, value: Seq<char>)
    ensures
        c.remembered(OpView::Put { key, value }, OutcomeView::Written).picked().0 matches OpView::Cas {
            key: k,
            expect,
            value: v,
        } ==> k == key ==> expect == Some(value),
        c.remembered(OpView::Get { key }, OutcomeView::Value(Some(value))).picked().0 matches OpView::Cas {
            key: k,
            expect,
            value: v,
        } ==> k == key ==> expect == Some(value),
        c.remembered(OpView::Delete { key }, OutcomeView::Written).picked().0 matches OpView::Cas {
            key: k,
            expect,
            value: v,
        } ==> k == key ==> expect is None,
{
}

/// Each kind of operation gets its share of the numbers that are drawn: as many
/// of them as its weight, reads first, then writes, swaps and deletions. The
/// key is drawn before, and from the same generator.
pub proof fn law_operations_are_drawn_by_weight(c: ClientView)
    requires
        c.cfg.keys > 0,
        c.cfg.read_weight + c.cfg.write_weight + c.cfg.cas_weight + c.cfg.delete_weight > 0,
    ensures
        ({
            let (k, r) = c.rng.below_of(c.cfg.keys as u64);
            let sum = c.cfg.read_weight + c.cfg.write_weight + c.cfg.cas_weight
                + c.cfg.delete_weight;
            let (p, q) = r.below_of(sum as u64);
            let (op, rng) = c.picked();
            let writes = p - c.cfg.read_weight;
            let swaps = writes - c.cfg.write_weight;
            let deletions = swaps - c.cfg.cas_weight;
            &&& rng == q
            &&& op.key() == Some("k"@ + decimal(k as nat))
            &&& op is Get <==> 0 <= p < c.cfg.read_weight
            &&& op is Put <==> 0 <= writes < c.cfg.write_weight
            &&& op is Cas <==> 0 <= swaps < c.cfg.cas_weight
            &&& op is Delete <==> 0 <= deletions < c.cfg.delete_weight
        }),
{
    let (k, r) = c.rng.below_of(c.cfg.keys as u64);
    law_below_in_range(r, c.cfg.total_weight());
}

// ---- what is believed ------------------------------------------------------

/// What a client believes after an answer: of the key it asked about, what the
/// answer shows the store to hold; nothing after a swap that found something
/// else; and of every other key, what it believed before. No other answer
/// changes anything.
pub proof fn law_beliefs_follow_answers(c: ClientView, op: OpView, outcome: OutcomeView)
    ensures
        ({
            let d = c.remembered(op, outcome);
            let told = match (op, outcome) {
                (OpView::Get { .. }, OutcomeView::Value(_)) => true,
                (OpView::Put { .. }, OutcomeView::Written) => true,
                (OpView::Delete { .. }, OutcomeView::Written) => true,
                (OpView::Cas { .. }, OutcomeView::Cas(_)) => true,
                _ => false,
            };
            &&& forall|k: Seq<char>|
                op.key() != Some(k) || !told ==> (#[trigger] d.known.contains_key(k)
                    == c.known.contains_key(k)) && (c.known.contains_key(k) ==> d.known[k]
                    == c.known[k])
            &&& op matches OpView::Get { key } ==> outcome matches OutcomeView::Value(v)
                ==> d.known.contains_key(key) && d.known[key] == v
            &&& op matches OpView::Put { key, value } ==> outcome is Written
                ==> d.known.contains_key(key) && d.known[key] == Some(value)
            &&& op matches OpView::Delete { key } ==> outcome is Written ==> d.known.contains_key(
                key,
            ) && d.known[key] is None
            &&& op matches OpView::Cas { key, expect, value } ==> outcome matches OutcomeView::Cas(ok)
                ==> (if ok {
                d.known.contains_key(key) && d.known[key] == Some(value)
            } else {
                !d.known.contains_key(key)
            })
            &&& d.seq == c.seq && d.target == c.target && d.inflight == c.inflight && d.rng == c.rng
                && d.next_req_id == c.next_req_id && d.next_history_id == c.next_history_id && d.stats
                == c.stats && d.stopped == c.stopped
        }),
{
}

// ---- who is asked ----------------------------------------------------------

/// Turning to another server turns to another one, wherever there are two.
pub proof fn law_turning_away(c: ClientView)
    requires
        c.target < c.servers.len() <= u32::MAX,
    ensures
        c.rotated().target < c.servers.len(),
        c.servers.len() > 1 ==> c.rotated().target != c.target,
        c.servers.len() == 1 ==> c.rotated() == c,
        c.rotated().servers == c.servers,
        c.rotated().inflight == c.inflight,
        c.rotated().known == c.known,
{
    let n = c.servers.len() as int;
    let next = c.rng.below_of(n as u64).0 as int;
    law_below_in_range(c.rng, n as u64);
    if next + 1 < n {
        assert((next + 1) % n == next + 1) by (nonlinear_arith)
            requires
                0 <= next + 1 < n,
        ;
    } else if n > 1 {
        assert(n % n == 0) by (nonlinear_arith)
            requires
                n > 1,
        ;
    }
}

proof fn lemma_place_of(servers: Seq<NodeId>, n: NodeId, i: int)
    requires
        0 <= i,
    ensures
        match place_of(servers, n, i) {
            Some(k) => i <= k < servers.len() && servers[k] == n,
            None => forall|k: int| i <= k < servers.len() ==> servers[k] != n,
        },
    decreases servers.len() - i,
{
    if i < servers.len() && servers[i] != n {
        lemma_place_of(servers, n, i + 1);
    }
}

/// A client that is told who leads asks that server next; one that is told only
/// that it asked the wrong one, or that something went wrong, turns to another.
/// A leader it does not know of changes nothing about whom it asks.
pub proof fn law_redirects_are_followed(c: ClientView, leader: NodeId)
    requires
        c.target < c.servers.len() <= u32::MAX,
        c.stats.redirects < u64::MAX,
    ensures
        ({
            let told = c.redirected(OutcomeView::NotLeader(Some(leader)));
            let lost = c.redirected(OutcomeView::NotLeader(None));
            &&& c.servers.contains(leader) ==> c.servers[told.target as int] == leader
            &&& !c.servers.contains(leader) ==> told.target == c.target
            &&& c.servers.len() > 1 ==> lost.target != c.target
            &&& told.target < c.servers.len() && lost.target < c.servers.len()
            &&& told.stats.redirects == c.stats.redirects + 1 && lost.stats.redirects
                == c.stats.redirects + 1
            &&& told.inflight == c.inflight && lost.inflight == c.inflight
        }),
{
    lemma_place_of(c.servers, leader, 0);
    law_turning_away(c);
    law_below_in_range(c.rng, c.servers.len() as u64);
}

// ---- what is recorded ------------------------------------------------------

/// Numbers in the history differ between clients and between the operations of
/// one client, as long as each client starts fewer than four thousand million.
pub proof fn law_recorded_numbers_differ(a: u32, x: u64, b: u32, y: u64)
    requires
        x < 0x1_0000_0000,
        y < 0x1_0000_0000,
        recorded_id(a, x) == recorded_id(b, y),
    ensures
        a == b,
        x == y,
{
    let (p, q) = (a as u64, b as u64);
    assert(p < 0x1_0000_0000 && q < 0x1_0000_0000 && x < 0x1_0000_0000 && y < 0x1_0000_0000 && (p
        << 32 | x) == (q << 32 | y) ==> p == q && x == y) by (bit_vector);
}

/// Beginning an operation records it as open, begun now, and asks the current
/// target for it under a number that no reply can answer yet; its timer runs.
/// The history keeps everything it had.
pub proof fn law_beginning_an_operation(
    c: ClientView,
    io: IoState,
    history: Seq<OperationView>,
    now: Nanos,
)
    requires
        !c.stopped,
        c.inflight is None,
        c.seq < u64::MAX,
        c.next_req_id < u64::MAX,
        c.next_history_id < u64::MAX,
        c.stats.started < u64::MAX,
    ensures
        ({
            let a = c.begin(io, history, now);
            let o = a.history.last();
            let f = a.client.inflight->Some_0;
            &&& a.history.len() == history.len() + 1
            &&& a.history.drop_last() == history
            &&& o.client == c.id && o.op == c.picked().0 && o.invoked == now
            &&& o.completed is None && o.outcome is None
            &&& o.id == recorded_id(c.id, c.next_history_id)
            &&& a.client.inflight is Some
            &&& f.op == o.op && f.seq == c.seq + 1 && f.history_id == c.next_history_id && f.attempts
                == 1
            &&& f.req_id > c.next_req_id && f.req_id == a.client.next_req_id
            &&& a.client.seq == c.seq + 1
            &&& a.client.next_history_id == c.next_history_id + 1
            &&& a.client.stats.started == c.stats.started + 1
            &&& a.client.known == c.known && a.client.target == c.target
            &&& a.io.log.last() == (Effect::Send {
                to: c.servers[c.target as int],
                payload: MessageView::Client(
                    ClientMsgView::Request { req_id: f.req_id, client: c.id, seq: f.seq, op: f.op },
                ).wire(),
            })
            &&& a.io.log.contains(
                Effect::SetTimer { delay: c.cfg.request_timeout, tag: TIMER_REQUEST },
            )
        }),
{
    let a = c.begin(io, history, now);
    assert(a.history.drop_last() =~= history);
    let n = io.log.len() as int;
    assert(a.io.log[n] == (Effect::SetTimer { delay: c.cfg.request_timeout, tag: TIMER_REQUEST }));
}

/// Recording an answer closes one operation, the last one of that number, with
/// the answer and its time. Everything else in the history stays as it is.
pub proof fn law_recording_an_answer(
    ops: Seq<OperationView>,
    id: u64,
    time: Nanos,
    outcome: OutcomeView,
)
    ensures
        ({
            let after = completed_at(ops, id, time, outcome);
            &&& after.len() == ops.len()
            &&& forall|i: int|
                0 <= i < ops.len() ==> {
                    let last = ops[i].id == id && forall|j: int|
                        i < j < ops.len() ==> (#[trigger] ops[j]).id != id;
                    &&& (#[trigger] after[i]).id == ops[i].id
                    &&& after[i].client == ops[i].client
                    &&& after[i].op == ops[i].op
                    &&& after[i].invoked == ops[i].invoked
                    &&& last ==> after[i].completed == Some(time) && after[i].outcome == Some(outcome)
                    &&& !last ==> after[i] == ops[i]
                }
        }),
{
    lemma_last_with_id(ops, id);
    let after = completed_at(ops, id, time, outcome);
    assert forall|i: int| 0 <= i < ops.len() implies {
        let last = ops[i].id == id && forall|j: int|
            i < j < ops.len() ==> (#[trigger] ops[j]).id != id;
        &&& (#[trigger] after[i]).id == ops[i].id
        &&& after[i].client == ops[i].client
        &&& after[i].op == ops[i].op
        &&& after[i].invoked == ops[i].invoked
        &&& last ==> after[i].completed == Some(time) && after[i].outcome == Some(outcome)
        &&& !last ==> after[i] == ops[i]
    } by {
        match last_with_id(ops, id) {
            Some(k) => {
                if i < k {
                    assert(ops[k].id == id);
                } else if i > k {
                    assert(ops[i].id != id);
                }
            },
            None => {
                assert(ops[i].id != id);
            },
        }
    }
}

/// A definite answer to the current attempt ends the operation: it is recorded
/// with the time it came and what it said, what the client believes follows it,
/// and no other operation of the history changes.
pub proof fn law_answers_are_recorded(
    c: ClientView,
    io: IoState,
    history: Seq<OperationView>,
    now: Nanos,
    bytes: Seq<u8>,
    at: int,
)
    requires
        ClientView::reply_in(bytes) is Some,
        c.inflight is Some,
        ClientView::reply_in(bytes)->Some_0.0 == c.inflight->Some_0.req_id,
        ClientView::reply_in(bytes)->Some_0.1.is_definite(),
        0 <= at < history.len(),
        history[at].id == recorded_id(c.id, c.inflight->Some_0.history_id),
        forall|j: int|
            0 <= j < history.len() && j != at ==> (#[trigger] history[j]).id != history[at].id,
        c.stats.completed < u64::MAX,
    ensures
        ({
            let a = c.on_bytes(io, history, now, bytes);
            let outcome = ClientView::reply_in(bytes)->Some_0.1;
            &&& a.history.len() >= history.len()
            &&& a.history[at].completed == Some(now)
            &&& a.history[at].outcome == Some(outcome)
            &&& a.history[at].op == history[at].op
            &&& forall|j: int|
                0 <= j < history.len() && j != at ==> #[trigger] a.history[j] == history[j]
            &&& a.client.stats.completed == c.stats.completed + 1
            &&& a.client.known == c.remembered(c.inflight->Some_0.op, outcome).known
            &&& c.stopped ==> a.client.inflight is None && a.history.len() == history.len()
        }),
{
    reveal(ClientView::on_bytes);
    let f = c.inflight->Some_0;
    let outcome = ClientView::reply_in(bytes)->Some_0.1;
    let id = recorded_id(c.id, f.history_id);
    law_recording_an_answer(history, id, now, outcome);
    let after = completed_at(history, id, now, outcome);
    let a = c.on_bytes(io, history, now, bytes);
    assert forall|j: int| 0 <= j < history.len() implies #[trigger] a.history[j] == after[j] by {}
    assert(after[at].completed == Some(now));
    assert forall|j: int| 0 <= j < history.len() && j != at implies #[trigger] a.history[j]
        == history[j] by {
        assert(after[j] == history[j]);
    }
}

/// A client that is stopped begins nothing, and one that is not pauses for as
/// long as it was told to before it does.
pub proof fn law_pauses(c: ClientView, io: IoState, history: Seq<OperationView>, now: Nanos)
    requires
        c.cfg.think_time.0 <= c.cfg.think_time.1,
    ensures
        c.stopped ==> c.think(io, history, now) == (Acted { client: c, history, io }),
        c.stopped ==> c.begin(io, history, now) == (Acted { client: c, history, io }),
        !c.stopped && c.cfg.think_time.0 > 0 ==> {
            let a = c.think(io, history, now);
            &&& a.history == history
            &&& a.client.inflight == c.inflight
            &&& a.io.log.len() == io.log.len() + 1
            &&& a.io.log.last() matches Effect::SetTimer { delay, tag } && tag == TIMER_THINK
                && c.cfg.think_time.0 <= delay <= c.cfg.think_time.1
        },
{
    law_range_in_bounds(c.rng, c.cfg.think_time.0, c.cfg.think_time.1);
}

/// A request that takes too long is tried elsewhere: the operation stays the
/// same, the server asked is another one. A timer that no request waits for
/// does nothing, nor does one the client never set.
pub proof fn law_slow_requests_are_tried_elsewhere(
    c: ClientView,
    io: IoState,
    history: Seq<OperationView>,
    now: Nanos,
    tag: TimerTag,
)
    requires
        1 < c.servers.len() <= u32::MAX,
        c.target < c.servers.len(),
    ensures
        ({
            let a = c.on_timer(io, history, now, TIMER_REQUEST);
            &&& c.inflight is None ==> a == (Acted { client: c, history, io })
            &&& c.inflight is Some && c.inflight->Some_0.attempts < c.cfg.max_attempts ==> {
                let (f, g) = (c.inflight->Some_0, a.client.inflight->Some_0);
                &&& a.history == history
                &&& a.client.inflight is Some
                &&& g.op == f.op && g.seq == f.seq && g.history_id == f.history_id
                &&& a.client.target != c.target && a.client.target < c.servers.len()
                &&& a.io.log.last() is Send && a.io.log.last()->to
                    == c.servers[a.client.target as int]
            }
        }),
        tag != TIMER_REQUEST && tag != TIMER_THINK ==> c.on_timer(io, history, now, tag) == (Acted {
            client: c,
            history,
            io,
        }),
        c.on_timer(io, history, now, TIMER_THINK) == c.begin(io, history, now),
{
    reveal(ClientView::on_timer);
    law_turning_away(c);
}

/// An attempt that is over has its timer cancelled, whether it was answered or is
/// tried again; and a reply that nobody waits for is counted and changes nothing
/// else.
pub proof fn law_attempts_are_wound_up(
    c: ClientView,
    io: IoState,
    history: Seq<OperationView>,
    now: Nanos,
    bytes: Seq<u8>,
)
    requires
        c.stats.stale_replies < u64::MAX,
    ensures
        ({
            let a = c.on_bytes(io, history, now, bytes);
            let r = ClientView::reply_in(bytes);
            let wanted = r is Some && c.inflight is Some && r->Some_0.0 == c.inflight->Some_0.req_id;
            &&& wanted && c.inflight->Some_0.timer is Some ==> a.io.log.len() > io.log.len()
                && a.io.log[io.log.len() as int] == (Effect::CancelTimer {
                handle: c.inflight->Some_0.timer->Some_0.0,
            })
            &&& !wanted ==> a == (Acted {
                client: ClientView {
                    stats: ClientStats {
                        stale_replies: (c.stats.stale_replies + 1) as u64,
                        ..c.stats
                    },
                    ..c
                },
                history,
                io,
            })
        }),
{
    reveal(ClientView::on_bytes);
}

} // verus!
