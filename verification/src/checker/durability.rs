//! What the disks actually say.
//!
//! Every other check reads the cluster's *opinion* of itself: a node's
//! in-memory log, its commit index, what it says it made durable. This one
//! reads the bytes that would survive a power cut, decodes them with the same
//! recovery rules a restarting node uses, and asks whether the cluster's claims
//! are backed by them.
//!
//! The central claim is this: **a committed entry is on stable storage on a
//! majority of nodes.** If that ever fails to hold, the cluster has told a
//! client that something is durable while a simultaneous power cut across a
//! majority would lose it -- which is precisely the failure mode consensus is
//! supposed to eliminate. An implementation that acknowledged before a sync
//! would sail past every in-memory invariant and fail here.

use crate::checker::invariants::{command_shown, command_shown_str};
use crate::checker::report::{violation_views, Violation, ViolationView};
use crate::kvstore::log::{entry_views, Command, CommandView, Entry, EntryView, LogView};
use crate::kvstore::raft::{lemma_append_all_entries, LOG_REGION};
use crate::kvstore::raft_model::{up_to_term, RaftConfig, RaftView};
use crate::kvstore::recovery::{recover_hard_state, recover_log, recovered, recovered_state};
use crate::kvstore::table::{listing, lists, row_views, KeyTable};
use crate::sim_io::network::{majority, quorum};
use crate::simcore::{Nanos, NodeId};
use crate::text::{decimal, join, join_str, own, put_num, quoted, quoted_opt, quoted_str, same_str, texts};
use vstd::prelude::*;
use vstd::slice::slice_subrange;

verus! {

/// The durable image of one node's write-ahead file.
#[derive(Debug)]
pub struct DiskView {
    pub id: NodeId,
    pub bytes: Vec<u8>,
}

/// What a node would recover if it restarted right now.
#[derive(Debug)]
pub struct Recovered {
    pub term: u64,
    pub voted_for: Option<NodeId>,
    pub entries: Vec<Entry>,
}

/// What a node would recover, its entries as views.
#[verifier::ext_equal]
pub struct DurableState {
    pub term: u64,
    pub voted_for: Option<NodeId>,
    pub entries: Seq<EntryView>,
}

impl View for Recovered {
    type V = DurableState;

    open spec fn view(&self) -> DurableState {
        DurableState {
            term: self.term,
            voted_for: self.voted_for,
            entries: entry_views(self.entries@),
        }
    }
}

impl Default for Recovered {
    fn default() -> (r: Recovered)
        ensures
            r@ == (DurableState { term: 0, voted_for: None, entries: Seq::empty() }),
    {
        let r = Recovered { term: 0, voted_for: None, entries: Vec::new() };
        assert(r@.entries =~= Seq::<EntryView>::empty());
        r
    }
}

impl DurableState {
    /// What a file holds: the newest hard state, and the log up to the last
    /// entry of a term that state knows.
    pub open spec fn of(file: Seq<u8>) -> DurableState {
        let hs = recovered_state(file);
        DurableState {
            term: hs.term,
            voted_for: hs.voted_for,
            entries: up_to_term(recovered(RaftView::log_bytes(file), 1).entries, hs.term),
        }
    }

    /// The index of the last entry.
    pub open spec fn last_index(self) -> u64 {
        if self.entries.len() == 0 {
            0
        } else {
            self.entries.last().index
        }
    }

    /// The entry at an index.
    pub open spec fn get(self, index: u64) -> Option<EntryView> {
        if 0 < index <= self.entries.len() {
            Some(self.entries[index - 1])
        } else {
            None
        }
    }
}

impl Recovered {
    pub fn last_index(&self) -> (r: u64)
        ensures
            r == self@.last_index(),
    {
        let n: usize = self.entries.len();
        if n == 0 {
            0
        } else {
            assert(self@.entries.last() == self.entries@[n - 1]@);
            self.entries[n - 1].index
        }
    }

    pub fn get(&self, index: u64) -> (r: Option<&Entry>)
        ensures
            match r {
                Some(e) => self@.get(index) == Some(e@),
                None => self@.get(index) is None,
            },
    {
        let n: usize = self.entries.len();
        if index == 0 || index - 1 >= n as u64 {
            None
        } else {
            let i: usize = (index - 1) as usize;
            assert(self@.entries[i as int] == self.entries@[i as int]@);
            Some(&self.entries[i])
        }
    }
}

/// Decode a durable image exactly as a restarting node would, including
/// dropping entries whose term was never made durable.
pub fn recover(bytes: &[u8]) -> (r: Recovered)
    ensures
        r@ == DurableState::of(bytes@),
{
    let hs = recover_hard_state(bytes);
    let n: usize = bytes.len();
    let mut entries = if n > LOG_REGION {
        let tail = slice_subrange(bytes, LOG_REGION, n);
        assert(tail@ =~= RaftView::log_bytes(bytes@));
        recover_log(tail).entries
    } else {
        let nothing: Vec<u8> = Vec::new();
        assert(nothing@ =~= RaftView::log_bytes(bytes@));
        recover_log(nothing.as_slice()).entries
    };
    let ghost all = entry_views(entries@);
    assert(all == recovered(RaftView::log_bytes(bytes@), 1).entries);
    while entries.len() > 0 && entries[entries.len() - 1].term > hs.term
        invariant
            up_to_term(all, hs.term) == up_to_term(entry_views(entries@), hs.term),
        decreases entries@.len(),
    {
        let ghost before = entry_views(entries@);
        assert(before.last() == entries@.last()@);
        entries.pop();
        assert(entry_views(entries@) =~= before.drop_last());
    }
    let r = Recovered { term: hs.term, voted_for: hs.voted_for, entries };
    proof {
        let left = entry_views(r.entries@);
        if left.len() > 0 {
            assert(left.last() == r.entries@.last()@);
        }
        assert(up_to_term(left, hs.term) == left);
        assert(r@ =~= DurableState::of(bytes@));
    }
    r
}

/// One committed entry, as the cluster believes it.
#[derive(Debug)]
pub struct CommittedEntry {
    pub index: u64,
    pub term: u64,
    pub cmd: Command,
}

/// One committed entry, its command as a view.
pub struct CommittedView {
    pub index: u64,
    pub term: u64,
    pub cmd: CommandView,
}

impl View for CommittedEntry {
    type V = CommittedView;

    open spec fn view(&self) -> CommittedView {
        CommittedView { index: self.index, term: self.term, cmd: self.cmd@ }
    }
}

/// The views of a list of committed entries.
pub open spec fn committed_views(cs: Seq<CommittedEntry>) -> Seq<CommittedView> {
    cs.map_values(|c: CommittedEntry| c@)
}

/// What each of some disks would recover to.
pub open spec fn durable_states(disks: Seq<DiskView>) -> Seq<(NodeId, DurableState)> {
    disks.map_values(|d: DiskView| (d.id, DurableState::of(d.bytes@)))
}

/// Whether a disk holds a committed entry.
pub open spec fn holds(d: DurableState, c: CommittedView) -> bool {
    match d.get(c.index) {
        Some(e) => e.term == c.term && e.cmd == c.cmd,
        None => false,
    }
}

/// Whether a disk holds something else where a committed entry belongs.
pub open spec fn contradicts(d: DurableState, c: CommittedView) -> bool {
    d.get(c.index) is Some && !holds(d, c)
}

/// How many disks hold a committed entry.
pub open spec fn holders(disks: Seq<(NodeId, DurableState)>, c: CommittedView) -> nat
    decreases disks.len(),
{
    if disks.len() == 0 {
        0
    } else {
        holders(disks.drop_last(), c) + (if holds(disks.last().1, c) {
            1nat
        } else {
            0
        })
    }
}

/// A durable entry that contradicts a committed one.
pub open spec fn conflict(time: Nanos, node: NodeId, e: EntryView, c: CommittedView) -> ViolationView {
    ViolationView {
        kind: "durable_conflict"@,
        time,
        node: Some(node),
        detail: "durable index "@ + decimal(c.index as nat) + " is term "@ + decimal(e.term as nat)
            + " "@ + command_shown(e.cmd) + ", but term "@ + decimal(c.term as nat) + " "@
            + command_shown(c.cmd) + " is committed"@,
    }
}

/// Every durable entry that contradicts a committed one.
pub open spec fn conflicts(
    time: Nanos,
    disks: Seq<(NodeId, DurableState)>,
    c: CommittedView,
) -> Seq<ViolationView>
    decreases disks.len(),
{
    if disks.len() == 0 {
        Seq::empty()
    } else {
        let rest = conflicts(time, disks.drop_last(), c);
        let (id, d) = disks.last();
        if contradicts(d, c) {
            rest.push(conflict(time, id, d.get(c.index)->Some_0, c))
        } else {
            rest
        }
    }
}

/// A committed entry that too few disks hold.
pub open spec fn unheld(time: Nanos, c: CommittedView, held: nat, size: nat) -> ViolationView {
    ViolationView {
        kind: "committed_not_durable"@,
        time,
        node: None,
        detail: "committed index "@ + decimal(c.index as nat) + " (term "@ + decimal(c.term as nat)
            + ") is on stable storage on only "@ + decimal(held) + " of "@ + decimal(size)
            + " nodes; a quorum is "@ + decimal(majority(size)),
    }
}

/// What is wrong with the disks, given what is committed. The first entry that
/// is not on a quorum ends the list: the rest of the log would say the same.
pub open spec fn not_durable(
    time: Nanos,
    cs: Seq<CommittedView>,
    disks: Seq<(NodeId, DurableState)>,
    size: nat,
) -> Seq<ViolationView>
    decreases cs.len(),
{
    if cs.len() == 0 {
        Seq::empty()
    } else {
        let c = cs[0];
        let here = conflicts(time, disks, c);
        let held = holders(disks, c);
        if held < majority(size) {
            here.push(unheld(time, c, held, size))
        } else {
            here + not_durable(time, cs.drop_first(), disks, size)
        }
    }
}

fn conflict_text(e: &Entry, c: &CommittedEntry) -> (r: String)
    ensures
        r@ == conflict(0, NodeId(0), e@, c@).detail,
{
    let mut s = own("durable index ");
    put_num(&mut s, c.index);
    s.append(" is term ");
    put_num(&mut s, e.term);
    s.append(" ");
    s.append(command_shown_str(&e.cmd).as_str());
    s.append(", but term ");
    put_num(&mut s, c.term);
    s.append(" ");
    s.append(command_shown_str(&c.cmd).as_str());
    s.append(" is committed");
    s
}

fn unheld_text(c: &CommittedEntry, held: usize, size: usize) -> (r: String)
    ensures
        r@ == unheld(0, c@, held as nat, size as nat).detail,
{
    let mut s = own("committed index ");
    put_num(&mut s, c.index);
    s.append(" (term ");
    put_num(&mut s, c.term);
    s.append(") is on stable storage on only ");
    put_num(&mut s, held as u64);
    s.append(" of ");
    put_num(&mut s, size as u64);
    s.append(" nodes; a quorum is ");
    put_num(&mut s, quorum(size) as u64);
    s
}

/// Check one committed entry against every disk: what contradicts it is added
/// to `out`, and how many hold it is returned.
fn check_entry_durable(
    time: Nanos,
    c: &CommittedEntry,
    ids: &Vec<NodeId>,
    found: &Vec<Recovered>,
    states: Ghost<Seq<(NodeId, DurableState)>>,
    out: &mut Vec<Violation>,
) -> (r: usize)
    requires
        ids@.len() == found@.len() == states@.len(),
        forall|i: int|
            0 <= i < found@.len() ==> #[trigger] states@[i] == (ids@[i], found@[i]@),
    ensures
        r == holders(states@, c@),
        r <= found@.len(),
        violation_views(final(out)@) == violation_views(old(out)@) + conflicts(time, states@, c@),
{
    let mut held: usize = 0;
    let mut i: usize = 0;
    let ghost all = states@;
    proof {
        assert(violation_views(out@) =~= violation_views(old(out)@) + conflicts(time, all.take(0), c@));
    }
    while i < found.len()
        invariant
            i <= found@.len(),
            ids@.len() == found@.len() == all.len(),
            forall|j: int| 0 <= j < found@.len() ==> #[trigger] all[j] == (ids@[j], found@[j]@),
            held <= i,
            held == holders(all.take(i as int), c@),
            violation_views(out@) == violation_views(old(out)@) + conflicts(
                time,
                all.take(i as int),
                c@,
            ),
        decreases found@.len() - i,
    {
        let ghost before = violation_views(out@);
        proof {
            assert(all.take(i + 1).drop_last() =~= all.take(i as int));
            assert(all.take(i + 1).last() == all[i as int]);
            assert(all[i as int] == (ids@[i as int], found@[i as int]@));
        }
        if let Some(e) = found[i].get(c.index) {
            if e.term == c.term && e.cmd.same(&c.cmd) {
                held += 1;
            } else {
                out.push(
                    Violation::new("durable_conflict", time, Some(ids[i]), conflict_text(e, c)),
                );
                proof {
                    let v = conflict(time, ids@[i as int], e@, c@);
                    assert(violation_views(out@) =~= before.push(v));
                    let old_out = violation_views(old(out)@);
                    let rest = conflicts(time, all.take(i as int), c@);
                    assert(before.push(v) =~= old_out + rest.push(v));
                }
            }
        }
        i += 1;
    }
    assert(all.take(i as int) =~= all);
    held
}

/// Check that everything the cluster considers committed is durable on a
/// majority, and that no node's durable log contradicts a committed entry.
pub fn check_committed_durable(
    time: Nanos,
    committed: &[CommittedEntry],
    disks: &[DiskView],
    cluster_size: usize,
) -> (r: Vec<Violation>)
    ensures
        violation_views(r@) == not_durable(
            time,
            committed_views(committed@),
            durable_states(disks@),
            cluster_size as nat,
        ),
{
    let mut out: Vec<Violation> = Vec::new();
    let mut ids: Vec<NodeId> = Vec::new();
    let mut found: Vec<Recovered> = Vec::new();
    let mut i: usize = 0;
    while i < disks.len()
        invariant
            i <= disks@.len(),
            ids@.len() == i,
            found@.len() == i,
            forall|j: int| 0 <= j < i ==> #[trigger] ids@[j] == disks@[j].id,
            forall|j: int|
                0 <= j < i ==> (#[trigger] found@[j])@ == DurableState::of(disks@[j].bytes@),
        decreases disks@.len() - i,
    {
        let got = recover(disks[i].bytes.as_slice());
        assert(got@ == DurableState::of(disks@[i as int].bytes@));
        let ghost earlier = found@;
        ids.push(disks[i].id);
        found.push(got);
        assert(forall|j: int| 0 <= j < i ==> #[trigger] found@[j] == earlier[j]);
        i += 1;
    }
    let ghost states = durable_states(disks@);
    let ghost cs = committed_views(committed@);
    let size: Ghost<nat> = Ghost(cluster_size as nat);
    assert forall|j: int| 0 <= j < found@.len() implies #[trigger] states[j] == (
        ids@[j],
        found@[j]@,
    ) by {
        assert(found@[j]@ == DurableState::of(disks@[j].bytes@));
    }
    let mut k: usize = 0;
    assert(violation_views(out@) + not_durable(time, cs.skip(0), states, size@) =~= not_durable(
        time,
        cs,
        states,
        size@,
    )) by {
        assert(cs.skip(0) =~= cs);
    }
    while k < committed.len()
        invariant
            k <= committed@.len(),
            cs == committed_views(committed@),
            states == durable_states(disks@),
            size@ == cluster_size,
            ids@.len() == found@.len() == states.len(),
            forall|j: int|
                0 <= j < found@.len() ==> #[trigger] states[j] == (ids@[j], found@[j]@),
            violation_views(out@) + not_durable(time, cs.skip(k as int), states, size@)
                == not_durable(time, cs, states, size@),
        decreases committed@.len() - k,
    {
        let c = &committed[k];
        let ghost before = violation_views(out@);
        let ghost here = conflicts(time, states, c@);
        assert(cs.skip(k as int)[0] == c@);
        assert(cs.skip(k as int).drop_first() =~= cs.skip(k + 1));
        let held: usize = check_entry_durable(time, c, &ids, &found, Ghost(states), &mut out);
        if held < quorum(cluster_size) {
            let v = Violation::new(
                "committed_not_durable",
                time,
                None,
                unheld_text(c, held, cluster_size),
            );
            out.push(v);
            proof {
                let last = unheld(time, c@, held as nat, size@);
                assert(violation_views(out@) =~= (before + here).push(last));
                assert((before + here).push(last) =~= before + here.push(last));
            }
            return out;
        }
        proof {
            let rest = not_durable(time, cs.skip(k + 1), states, size@);
            assert((before + here) + rest =~= before + (here + rest));
        }
        k += 1;
    }
    proof {
        assert(cs.skip(k as int).len() == 0);
        assert(violation_views(out@) + Seq::<ViolationView>::empty() =~= violation_views(out@));
    }
    out
}

/// Whether the entry at a place came through unchanged.
pub open spec fn kept_at(before: Seq<EntryView>, after: Seq<EntryView>, i: int) -> bool {
    i < after.len() && after[i] == before[i]
}

/// The first of the first `n` places, from `i` on, at which two lists of entries
/// differ or the second has ended.
pub open spec fn first_lost(before: Seq<EntryView>, n: int, after: Seq<EntryView>, i: int) -> Option<int>
    decreases n - i,
{
    if i >= n || i >= before.len() {
        None
    } else if i >= after.len() || after[i] != before[i] {
        Some(i)
    } else {
        first_lost(before, n, after, i + 1)
    }
}

fn find_lost(before: &[Entry], n: u64, after: &[Entry]) -> (r: Option<usize>)
    ensures
        match r {
            Some(i) => first_lost(entry_views(before@), n as int, entry_views(after@), 0) == Some(
                i as int,
            ) && i < before@.len() && i < n,
            None => first_lost(entry_views(before@), n as int, entry_views(after@), 0) is None,
        },
        r is Some && n <= after@.len() ==> r->Some_0 < after@.len(),
{
    let mut i: usize = 0;
    let ghost (b, a) = (entry_views(before@), entry_views(after@));
    let here: usize = before.len();
    let there: usize = after.len();
    while i < here && (i as u64) < n
        invariant
            i <= here == before@.len(),
            there == after@.len(),
            i <= n,
            b == entry_views(before@),
            a == entry_views(after@),
            first_lost(b, n as int, a, 0) == first_lost(b, n as int, a, i as int),
        decreases here - i,
    {
        assert(b[i as int] == before@[i as int]@);
        if i >= there {
            return Some(i);
        }
        assert(a[i as int] == after@[i as int]@);
        if !after[i].same(&before[i]) {
            return Some(i);
        }
        i += 1;
    }
    None
}

/// An entry in a sentence.
pub open spec fn entry_shown(e: EntryView) -> Seq<char> {
    "term "@ + decimal(e.term as nat) + " "@ + command_shown(e.cmd)
}

fn put_entry(s: &mut String, e: &Entry)
    ensures
        final(s)@ == old(s)@ + entry_shown(e@),
{
    s.append("term ");
    put_num(s, e.term);
    s.append(" ");
    s.append(command_shown_str(&e.cmd).as_str());
    assert(s@ =~= old(s)@ + entry_shown(e@));
}

/// What is wrong if a node does not recover a prefix of what it had.
pub open spec fn not_a_prefix(
    time: Nanos,
    node: NodeId,
    before: Seq<EntryView>,
    after: Seq<EntryView>,
) -> Seq<ViolationView> {
    if after.len() > before.len() {
        seq![
            ViolationView {
                kind: "recovery_grew"@,
                time,
                node: Some(node),
                detail: "recovered "@ + decimal(after.len()) + " entries after a crash but only had "@
                    + decimal(before.len()),
            },
        ]
    } else {
        match first_lost(before, after.len() as int, after, 0) {
            Some(i) => seq![
                ViolationView {
                    kind: "recovery_not_a_prefix"@,
                    time,
                    node: Some(node),
                    detail: "index "@ + decimal(after[i].index as nat) + " recovered as "@
                        + entry_shown(after[i]) + ", but was "@ + entry_shown(before[i])
                        + " before the crash"@,
                },
            ],
            None => Seq::empty(),
        }
    }
}

fn one(v: Violation) -> (r: Vec<Violation>)
    ensures
        violation_views(r@) == seq![v@],
{
    let ghost x = v@;
    let mut out: Vec<Violation> = Vec::new();
    out.push(v);
    assert(violation_views(out@) =~= seq![x]);
    out
}

fn nothing() -> (r: Vec<Violation>)
    ensures
        violation_views(r@) == Seq::<ViolationView>::empty(),
{
    let out: Vec<Violation> = Vec::new();
    assert(violation_views(out@) =~= Seq::<ViolationView>::empty());
    out
}

/// Check that a restarted node recovered a prefix of what it had before the
/// crash.
///
/// A crash may lose the unsynced tail. It may never invent an entry, change one
/// that was already there, or come back with a *longer* log than it had.
pub fn check_recovery_is_a_prefix(
    time: Nanos,
    node: NodeId,
    before: &[Entry],
    after: &[Entry],
) -> (r: Vec<Violation>)
    ensures
        violation_views(r@) == not_a_prefix(time, node, entry_views(before@), entry_views(after@)),
{
    if after.len() > before.len() {
        let mut s = own("recovered ");
        put_num(&mut s, after.len() as u64);
        s.append(" entries after a crash but only had ");
        put_num(&mut s, before.len() as u64);
        return one(Violation::new("recovery_grew", time, Some(node), s));
    }
    match find_lost(before, after.len() as u64, after) {
        Some(i) => {
            assert(entry_views(before@)[i as int] == before@[i as int]@);
            assert(entry_views(after@)[i as int] == after@[i as int]@);
            let mut s = own("index ");
            put_num(&mut s, after[i].index);
            s.append(" recovered as ");
            put_entry(&mut s, &after[i]);
            s.append(", but was ");
            put_entry(&mut s, &before[i]);
            s.append(" before the crash");
            one(Violation::new("recovery_not_a_prefix", time, Some(node), s))
        },
        None => nothing(),
    }
}

/// What is wrong if a node lost part of what it had synced.
pub open spec fn synced_lost(
    time: Nanos,
    node: NodeId,
    before: Seq<EntryView>,
    durable: u64,
    after: Seq<EntryView>,
) -> Seq<ViolationView> {
    match first_lost(before, durable as int, after, 0) {
        Some(i) => seq![
            ViolationView {
                kind: "durable_entry_lost"@,
                time,
                node: Some(node),
                detail: "index "@ + decimal(before[i].index as nat) + " ("@ + entry_shown(before[i])
                    + ") was synced before the crash, but recovery did not bring it back"@,
            },
        ],
        None => Seq::empty(),
    }
}

/// Check that everything a node had synced came back unchanged.
///
/// `durable` is how far the node knew its log to be synced when it crashed.
/// What lay beyond may be lost, and a truncation that never reached the platter
/// may legally resurrect entries the node had already discarded.
pub fn check_recovery(
    time: Nanos,
    node: NodeId,
    before: &[Entry],
    durable: u64,
    after: &[Entry],
) -> (r: Vec<Violation>)
    ensures
        violation_views(r@) == synced_lost(
            time,
            node,
            entry_views(before@),
            durable,
            entry_views(after@),
        ),
{
    match find_lost(before, durable, after) {
        Some(i) => {
            assert(entry_views(before@)[i as int] == before@[i as int]@);
            let mut s = own("index ");
            put_num(&mut s, before[i].index);
            s.append(" (");
            put_entry(&mut s, &before[i]);
            s.append(") was synced before the crash, but recovery did not bring it back");
            one(Violation::new("durable_entry_lost", time, Some(node), s))
        },
        None => nothing(),
    }
}

/// What is wrong if a disk does not back a node's claim.
pub open spec fn claim_unbacked(
    time: Nanos,
    node: NodeId,
    entries: Seq<EntryView>,
    durable: u64,
    file: Seq<u8>,
) -> Seq<ViolationView> {
    match first_lost(entries, durable as int, DurableState::of(file).entries, 0) {
        Some(i) => seq![
            ViolationView {
                kind: "durable_claim_unbacked"@,
                time,
                node: Some(node),
                detail: "node claims to be durable through index "@ + decimal(durable as nat)
                    + ", but its disk does not hold index "@ + decimal(entries[i].index as nat)
                    + " ("@ + entry_shown(entries[i]) + ")"@,
            },
        ],
        None => Seq::empty(),
    }
}

/// Check a live node's durability claim against the bytes that would actually
/// survive a power cut.
pub fn check_durable_claim(
    time: Nanos,
    node: NodeId,
    entries: &[Entry],
    durable: u64,
    disk: &DiskView,
) -> (r: Vec<Violation>)
    ensures
        violation_views(r@) == claim_unbacked(
            time,
            node,
            entry_views(entries@),
            durable,
            disk.bytes@,
        ),
{
    let found = recover(disk.bytes.as_slice());
    match find_lost(entries, durable, found.entries.as_slice()) {
        Some(i) => {
            assert(entry_views(entries@)[i as int] == entries@[i as int]@);
            let mut s = own("node claims to be durable through index ");
            put_num(&mut s, durable);
            s.append(", but its disk does not hold index ");
            put_num(&mut s, entries[i].index);
            s.append(" (");
            put_entry(&mut s, &entries[i]);
            s.append(")");
            one(Violation::new("durable_claim_unbacked", time, Some(node), s))
        },
        None => nothing(),
    }
}

/// What is wrong if a disk forgot a term its node acted in.
pub open spec fn term_lost(time: Nanos, node: NodeId, acted: u64, file: Seq<u8>) -> Seq<ViolationView> {
    let term = DurableState::of(file).term;
    if term < acted {
        seq![
            ViolationView {
                kind: "durable_term_lost"@,
                time,
                node: Some(node),
                detail: "disk holds term "@ + decimal(term as nat)
                    + " but this node has already sent messages in term "@ + decimal(acted as nat),
            },
        ]
    } else {
        Seq::empty()
    }
}

/// Check that a node's durable term never goes backwards.
pub fn check_term_durable(time: Nanos, node: NodeId, acted_term: u64, disk: &DiskView) -> (r: Vec<
    Violation,
>)
    ensures
        violation_views(r@) == term_lost(time, node, acted_term, disk.bytes@),
{
    let found = recover(disk.bytes.as_slice());
    if found.term < acted_term {
        let mut s = own("disk holds term ");
        put_num(&mut s, found.term);
        s.append(" but this node has already sent messages in term ");
        put_num(&mut s, acted_term);
        return one(Violation::new("durable_term_lost", time, Some(node), s));
    }
    nothing()
}

/// What a replica was seen to hold: who, how far it had applied, and its data.
pub struct ReplicaView {
    pub id: NodeId,
    pub applied: u64,
    pub state: Map<Seq<char>, Seq<char>>,
}

/// The views of a list of replicas.
pub open spec fn replica_views(rs: Seq<(NodeId, u64, &KeyTable<String>)>) -> Seq<ReplicaView> {
    rs.map_values(
        |r: (NodeId, u64, &KeyTable<String>)|
            ReplicaView { id: r.0, applied: r.1, state: r.2@ },
    )
}

/// What a map holds at a key.
pub open spec fn at_key(m: Map<Seq<char>, Seq<char>>, k: Seq<char>) -> Option<Seq<char>> {
    if m.contains_key(k) {
        Some(m[k])
    } else {
        None
    }
}

/// The first few rows that a map does not agree with, in words.
pub open spec fn differing(
    rows: Seq<(Seq<char>, Seq<char>)>,
    other: Map<Seq<char>, Seq<char>>,
) -> Seq<Seq<char>>
    decreases rows.len(),
{
    if rows.len() == 0 {
        Seq::empty()
    } else {
        let rest = differing(rows.drop_last(), other);
        let (k, v) = rows.last();
        if at_key(other, k) == Some(v) || rest.len() >= 4 {
            rest
        } else {
            rest.push(k + "="@ + quoted(v) + " vs "@ + quoted_opt(at_key(other, k)))
        }
    }
}

/// A replica that disagrees with the first one.
pub open spec fn divergence(time: Nanos, first: ReplicaView, r: ReplicaView) -> ViolationView {
    ViolationView {
        kind: "replicas_diverged"@,
        time,
        node: Some(r.id),
        detail: "after applying "@ + decimal(r.applied as nat) + " entries, "@ + r.id.label()
            + " disagrees with "@ + first.id.label() + ": "@ + join(
            differing(listing(first.state), r.state),
            ", "@,
        ),
    }
}

/// Every replica, of the first `n`, that has applied as much as the first one
/// and holds other data.
pub open spec fn diverged(time: Nanos, rs: Seq<ReplicaView>, n: nat) -> Seq<ViolationView>
    decreases n,
{
    if n <= 1 {
        Seq::empty()
    } else {
        let rest = diverged(time, rs, (n - 1) as nat);
        let r = rs[n - 1];
        if r.applied == rs[0].applied && r.state != rs[0].state {
            rest.push(divergence(time, rs[0], r))
        } else {
            rest
        }
    }
}

/// Whether two tables hold the same rows.
fn same_table(a: &KeyTable<String>, b: &KeyTable<String>) -> (r: bool)
    requires
        a.wf(),
        b.wf(),
    ensures
        r == (a@ == b@),
{
    let (x, y) = (a.rows(), b.rows());
    let ghost (s, t) = (row_views(x@), row_views(y@));
    if x.len() != y.len() {
        return false;
    }
    let mut i: usize = 0;
    while i < x.len()
        invariant
            i <= x@.len() == y@.len(),
            s == row_views(x@),
            t == row_views(y@),
            s == listing(a@),
            t == listing(b@),
            forall|j: int| 0 <= j < i ==> #[trigger] s[j] == t[j],
        decreases x@.len() - i,
    {
        let same = same_str(x[i].0.as_str(), y[i].0.as_str()) && same_str(
            x[i].1.as_str(),
            y[i].1.as_str(),
        );
        proof {
            assert(s[i as int] == (x@[i as int].0@, x@[i as int].1@));
            assert(t[i as int] == (y@[i as int].0@, y@[i as int].1@));
        }
        if !same {
            return false;
        }
        i += 1;
    }
    proof {
        assert(s =~= t);
        lemma_same_listing(s, a@, b@);
    }
    true
}

proof fn lemma_same_listing<A>(rows: Seq<(Seq<char>, A)>, a: Map<Seq<char>, A>, b: Map<Seq<char>, A>)
    requires
        lists(rows, a),
        lists(rows, b),
    ensures
        a == b,
{
    assert forall|k: Seq<char>| a.contains_key(k) == b.contains_key(k) by {
        if a.contains_key(k) {
            let i = choose|i: int| 0 <= i < rows.len() && (#[trigger] rows[i]).0 == k;
            assert(b.contains_key(rows[i].0));
        }
        if b.contains_key(k) {
            let i = choose|i: int| 0 <= i < rows.len() && (#[trigger] rows[i]).0 == k;
            assert(a.contains_key(rows[i].0));
        }
    }
    assert forall|k: Seq<char>| a.contains_key(k) implies #[trigger] a[k] == b[k] by {
        let i = choose|i: int| 0 <= i < rows.len() && (#[trigger] rows[i]).0 == k;
        assert(a[rows[i].0] == rows[i].1 && b[rows[i].0] == rows[i].1);
    }
    assert(a =~= b);
}

fn quoted_at(table: &KeyTable<String>, key: &str) -> (r: String)
    requires
        table.wf(),
    ensures
        r@ == quoted_opt(at_key(table@, key@)),
{
    match table.get(key) {
        Some(v) => {
            let mut s = own("Some(");
            s.append(quoted_str(v.as_str()).as_str());
            s.append(")");
            s
        },
        None => own("None"),
    }
}

fn differing_rows(first: &KeyTable<String>, other: &KeyTable<String>) -> (r: Vec<String>)
    requires
        first.wf(),
        other.wf(),
    ensures
        texts(r@) == differing(listing(first@), other@),
{
    let mut out: Vec<String> = Vec::new();
    let rows = first.rows();
    let ghost all = row_views(rows@);
    let mut i: usize = 0;
    assert(texts(out@) =~= differing(all.take(0), other@));
    while i < rows.len()
        invariant
            i <= rows@.len(),
            all == row_views(rows@),
            other.wf(),
            texts(out@) == differing(all.take(i as int), other@),
        decreases rows@.len() - i,
    {
        let k = rows[i].0.as_str();
        let v = rows[i].1.as_str();
        proof {
            assert(all.take(i + 1).drop_last() =~= all.take(i as int));
            assert(all.take(i + 1).last() == (k@, v@));
        }
        let same = match other.get(k) {
            Some(w) => same_str(w.as_str(), v),
            None => false,
        };
        if !same && out.len() < 4 {
            let ghost before = texts(out@);
            let mut s = own(k);
            s.append("=");
            s.append(quoted_str(v).as_str());
            s.append(" vs ");
            s.append(quoted_at(other, k).as_str());
            let ghost words = s@;
            out.push(s);
            assert(texts(out@) =~= before.push(words));
        }
        i += 1;
    }
    assert(all.take(i as int) =~= all);
    out
}

/// After the cluster has been left alone to settle, every node that has applied
/// the same number of entries must hold the same data.
pub fn check_convergence(time: Nanos, states: &[(NodeId, u64, &KeyTable<String>)]) -> (r: Vec<Violation>)
    requires
        forall|i: int| 0 <= i < states@.len() ==> (#[trigger] states@[i]).2.wf(),
    ensures
        violation_views(r@) == diverged(time, replica_views(states@), states@.len()),
{
    let mut out: Vec<Violation> = Vec::new();
    assert(violation_views(out@) =~= Seq::<ViolationView>::empty());
    if states.len() == 0 {
        return out;
    }
    let ghost rs = replica_views(states@);
    let first = states[0];
    let mut i: usize = 1;
    while i < states.len()
        invariant
            1 <= i <= states@.len(),
            first == states@[0],
            rs == replica_views(states@),
            forall|j: int| 0 <= j < states@.len() ==> (#[trigger] states@[j]).2.wf(),
            violation_views(out@) == diverged(time, rs, i as nat),
        decreases states@.len() - i,
    {
        let s = states[i];
        assert(s.2.wf() && states@[0].2.wf());
        assert(rs[i as int] == (ReplicaView { id: s.0, applied: s.1, state: s.2@ }));
        assert(rs[0] == (ReplicaView { id: first.0, applied: first.1, state: first.2@ }));
        if s.1 == first.1 && !same_table(s.2, first.2) {
            let ghost before = violation_views(out@);
            let mut t = own("after applying ");
            put_num(&mut t, s.1);
            t.append(" entries, ");
            t.append(s.0.text().as_str());
            t.append(" disagrees with ");
            t.append(first.0.text().as_str());
            t.append(": ");
            t.append(join_str(&differing_rows(first.2, s.2), ", ").as_str());
            out.push(Violation::new("replicas_diverged", time, Some(s.0), t));
            assert(violation_views(out@) =~= before.push(
                divergence(time, rs[0], rs[i as int]),
            ));
        }
        i += 1;
    }
    out
}

// ---- laws ------------------------------------------------------------------

/// The decoded image of a disk is what a node that restarts on it starts from.
pub proof fn law_recovers_as_a_restart_would(
    file: Seq<u8>,
    id: NodeId,
    members: Seq<NodeId>,
    cfg: RaftConfig,
    seed: u64,
)
    ensures
        ({
            let node = RaftView::loaded(file, id, members, cfg, seed);
            let disk = DurableState::of(file);
            &&& disk.term == node.term
            &&& disk.voted_for == node.voted_for
            &&& disk.entries == node.log.entries
        }),
{
    let kept = DurableState::of(file).entries;
    lemma_append_all_entries(LogView::empty(), kept);
    assert(LogView::empty().entries + kept =~= kept);
}

/// The durability check is silent exactly when every committed entry is on
/// stable storage on a majority and no disk contradicts one.
pub proof fn law_committed_is_durable(
    time: Nanos,
    cs: Seq<CommittedView>,
    disks: Seq<(NodeId, DurableState)>,
    size: nat,
)
    ensures
        not_durable(time, cs, disks, size).len() == 0 <==> (forall|i: int|
            0 <= i < cs.len() ==> {
                &&& holders(disks, #[trigger] cs[i]) >= majority(size)
                &&& forall|j: int| 0 <= j < disks.len() ==> !contradicts(#[trigger] disks[j].1, cs[i])
            }),
    decreases cs.len(),
{
    if cs.len() > 0 {
        lemma_no_conflict(time, disks, cs[0]);
        let rest = cs.drop_first();
        law_committed_is_durable(time, rest, disks, size);
        let quiet = not_durable(time, cs, disks, size).len() == 0;
        if quiet {
            assert forall|i: int| 0 <= i < cs.len() implies holders(disks, #[trigger] cs[i])
                >= majority(size) && forall|j: int|
                0 <= j < disks.len() ==> !contradicts(#[trigger] disks[j].1, cs[i]) by {
                if i > 0 {
                    assert(cs[i] == rest[i - 1]);
                }
            }
        }
        if forall|i: int|
            0 <= i < cs.len() ==> {
                &&& holders(disks, #[trigger] cs[i]) >= majority(size)
                &&& forall|j: int| 0 <= j < disks.len() ==> !contradicts(#[trigger] disks[j].1, cs[i])
            } {
            assert(holders(disks, cs[0]) >= majority(size));
            assert forall|i: int| 0 <= i < rest.len() implies holders(disks, #[trigger] rest[i])
                >= majority(size) && forall|j: int|
                0 <= j < disks.len() ==> !contradicts(#[trigger] disks[j].1, rest[i]) by {
                assert(rest[i] == cs[i + 1]);
            }
        }
    }
}

proof fn lemma_no_conflict(time: Nanos, disks: Seq<(NodeId, DurableState)>, c: CommittedView)
    ensures
        conflicts(time, disks, c).len() == 0 <==> (forall|j: int|
            0 <= j < disks.len() ==> !contradicts(#[trigger] disks[j].1, c)),
    decreases disks.len(),
{
    if disks.len() > 0 {
        let d = disks.drop_last();
        lemma_no_conflict(time, d, c);
        if forall|j: int| 0 <= j < d.len() ==> !contradicts(#[trigger] d[j].1, c) {
            assert forall|j: int| 0 <= j < disks.len() - 1 implies !contradicts(
                #[trigger] disks[j].1,
                c,
            ) by {
                assert(d[j] == disks[j]);
            }
        }
        if forall|j: int| 0 <= j < disks.len() ==> !contradicts(#[trigger] disks[j].1, c) {
            assert forall|j: int| 0 <= j < d.len() implies !contradicts(#[trigger] d[j].1, c) by {
                assert(d[j] == disks[j]);
            }
            assert(!contradicts(disks[disks.len() - 1].1, c));
        }
    }
}

/// What [`first_lost`] finds: it is silent exactly when the first places agree,
/// and otherwise names the first that does not.
pub proof fn law_first_lost(before: Seq<EntryView>, n: int, after: Seq<EntryView>, i: int)
    requires
        0 <= i,
    ensures
        match first_lost(before, n, after, i) {
            Some(k) => {
                &&& i <= k < n
                &&& k < before.len()
                &&& !kept_at(before, after, k)
                &&& forall|j: int| i <= j < k ==> #[trigger] kept_at(before, after, j)
            },
            None => forall|j: int|
                i <= j < n && j < before.len() ==> #[trigger] kept_at(before, after, j),
        },
    decreases n - i,
{
    if i < n && i < before.len() && i < after.len() && after[i] == before[i] {
        law_first_lost(before, n, after, i + 1);
    }
}

/// Recovery is accepted as a prefix exactly when it is one.
pub proof fn law_recovers_a_prefix(
    time: Nanos,
    node: NodeId,
    before: Seq<EntryView>,
    after: Seq<EntryView>,
)
    ensures
        not_a_prefix(time, node, before, after).len() == 0 <==> after.is_prefix_of(before),
{
    law_first_lost(before, after.len() as int, after, 0);
    if after.len() <= before.len() {
        if first_lost(before, after.len() as int, after, 0) is None {
            assert forall|j: int| 0 <= j < after.len() implies after[j] == before[j] by {
                assert(kept_at(before, after, j));
            }
            assert(after =~= before.take(after.len() as int));
        } else {
            let k = first_lost(before, after.len() as int, after, 0)->Some_0;
            assert(before.take(after.len() as int)[k] == before[k]);
        }
    }
}

/// A restart is accepted exactly when everything synced came back unchanged.
pub proof fn law_synced_comes_back(
    time: Nanos,
    node: NodeId,
    before: Seq<EntryView>,
    durable: u64,
    after: Seq<EntryView>,
)
    ensures
        synced_lost(time, node, before, durable, after).len() == 0 <==> (forall|j: int|
            0 <= j < durable && j < before.len() ==> #[trigger] kept_at(before, after, j)),
{
    law_first_lost(before, durable as int, after, 0);
}

/// A durability claim is accepted exactly when the disk backs all of it.
pub proof fn law_claims_are_backed(
    time: Nanos,
    node: NodeId,
    entries: Seq<EntryView>,
    durable: u64,
    file: Seq<u8>,
)
    ensures
        claim_unbacked(time, node, entries, durable, file).len() == 0 <==> (forall|j: int|
            0 <= j < durable && j < entries.len() ==> #[trigger] kept_at(
                entries,
                DurableState::of(file).entries,
                j,
            )),
{
    law_first_lost(entries, durable as int, DurableState::of(file).entries, 0);
}

/// Replicas are accepted exactly when each that has applied as much as the
/// first one holds the same data.
pub proof fn law_replicas_converge(time: Nanos, rs: Seq<ReplicaView>, n: nat)
    requires
        n <= rs.len(),
    ensures
        diverged(time, rs, n).len() == 0 <==> (forall|i: int|
            1 <= i < n && (#[trigger] rs[i]).applied == rs[0].applied ==> rs[i].state == rs[0].state),
    decreases n,
{
    if n > 1 {
        law_replicas_converge(time, rs, (n - 1) as nat);
        let last = rs[n - 1];
        if diverged(time, rs, n).len() == 0 {
            assert forall|i: int| 1 <= i < n && (#[trigger] rs[i]).applied == rs[0].applied implies rs[i].state
                == rs[0].state by {
                if i < n - 1 {
                    assert(rs[i].state == rs[0].state);
                }
            }
        }
    }
}

} // verus!
