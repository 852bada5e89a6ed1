//! What it means that an entry is on stable storage, and what the checks on the
//! disks name.

use crate::checker::durability::{
    claim_unbacked, conflicts, contradicts, diverged, first_lost, holders, holds, kept_at, law_first_lost,
    not_durable, synced_lost, term_lost, CommittedView, DurableState, ReplicaView,
};
use crate::checker::invariant_laws::found;
use crate::kvstore::log::EntryView;
use crate::kvstore::recovery::recovered_state;
use crate::sim_io::network::majority;
use crate::simcore::{Nanos, NodeId};
use vstd::prelude::*;

verus! {

/// Whether a disk's log has an entry of this term and command at an index,
/// counting from one.
pub open spec fn has_entry(d: DurableState, c: CommittedView) -> bool {
    &&& 0 < c.index <= d.entries.len()
    &&& d.entries[c.index - 1].term == c.term
    &&& d.entries[c.index - 1].cmd == c.cmd
}

/// A disk holds a committed entry where its log has that command in that term at
/// that index, and contradicts it where it has another there; where its log ends
/// before, it does neither.
pub proof fn law_disks_hold_or_contradict(d: DurableState, c: CommittedView)
    ensures
        holds(d, c) <==> has_entry(d, c),
        contradicts(d, c) <==> 0 < c.index <= d.entries.len() && !has_entry(d, c),
{
}

/// The holders of an entry are the disks that hold it, each counted once.
pub proof fn law_holders_are_counted(disks: Seq<(NodeId, DurableState)>, c: CommittedView)
    ensures
        holders(disks, c) == disks.filter(|x: (NodeId, DurableState)| has_entry(x.1, c)).len(),
    decreases disks.len(),
{
    reveal(Seq::filter);
    if disks.len() > 0 {
        law_holders_are_counted(disks.drop_last(), c);
    }
}

proof fn lemma_conflicts(time: Nanos, disks: Seq<(NodeId, DurableState)>, c: CommittedView)
    ensures
        forall|i: int|
            0 <= i < conflicts(time, disks, c).len() ==> (#[trigger] conflicts(time, disks, c)[i]).kind
                == "durable_conflict"@ && conflicts(time, disks, c)[i].time == time,
    decreases disks.len(),
{
    if disks.len() > 0 {
        let d = disks.drop_last();
        lemma_conflicts(time, d, c);
        let (a, b) = (conflicts(time, d, c), conflicts(time, disks, c));
        assert forall|i: int| 0 <= i < b.len() implies (#[trigger] b[i]).kind
            == "durable_conflict"@ && b[i].time == time by {
            if i < a.len() {
                assert(b[i] == a[i]);
            }
        }
    }
}

/// A committed entry that fewer than a majority of disks hold is named as not
/// durable, whatever comes before it.
pub proof fn law_entries_on_too_few_disks_are_named(
    time: Nanos,
    cs: Seq<CommittedView>,
    disks: Seq<(NodeId, DurableState)>,
    size: nat,
    k: int,
)
    requires
        0 <= k < cs.len(),
        2 * disks.filter(|x: (NodeId, DurableState)| has_entry(x.1, cs[k])).len() <= size,
    ensures
        found(not_durable(time, cs, disks, size), "committed_not_durable"@),
    decreases cs.len(),
{
    let c = cs[0];
    let here = conflicts(time, disks, c);
    let out = not_durable(time, cs, disks, size);
    law_holders_are_counted(disks, cs[k]);
    if holders(disks, c) < majority(size) {
        assert(out[here.len() as int].kind == "committed_not_durable"@);
    } else {
        let rest = cs.drop_first();
        assert(rest[k - 1] == cs[k]);
        law_entries_on_too_few_disks_are_named(time, rest, disks, size, k - 1);
        let more = not_durable(time, rest, disks, size);
        let i = choose|i: int|
            0 <= i < more.len() && (#[trigger] more[i]).kind == "committed_not_durable"@;
        assert(out[here.len() + i] == more[i]);
    }
}

/// A disk that contradicts a committed entry is named, where the entries before
/// it are on a majority.
pub proof fn law_contradicting_disks_are_named(
    time: Nanos,
    c: CommittedView,
    more: Seq<CommittedView>,
    disks: Seq<(NodeId, DurableState)>,
    size: nat,
    j: int,
)
    requires
        0 <= j < disks.len(),
        0 < c.index <= disks[j].1.entries.len(),
        !has_entry(disks[j].1, c),
    ensures
        found(not_durable(time, seq![c] + more, disks, size), "durable_conflict"@),
{
    let cs = seq![c] + more;
    assert(cs[0] == c);
    let here = conflicts(time, disks, c);
    lemma_conflicts(time, disks, c);
    lemma_conflicting(time, disks, c, j);
    let out = not_durable(time, cs, disks, size);
    assert(here[0].kind == "durable_conflict"@);
    assert(out[0] == here[0]);
}

proof fn lemma_conflicting(time: Nanos, disks: Seq<(NodeId, DurableState)>, c: CommittedView, j: int)
    requires
        0 <= j < disks.len(),
        contradicts(disks[j].1, c),
    ensures
        conflicts(time, disks, c).len() > 0,
    decreases disks.len(),
{
    if j < disks.len() - 1 {
        assert(disks.drop_last()[j] == disks[j]);
        lemma_conflicting(time, disks.drop_last(), c, j);
    }
}

/// A disk has forgotten a term exactly where the newest hard state on it is of
/// an earlier one than its node has acted in; that node is named then, once.
pub proof fn law_forgotten_terms_are_named(time: Nanos, node: NodeId, acted: u64, file: Seq<u8>)
    ensures
        recovered_state(file).term >= acted ==> term_lost(time, node, acted, file).len() == 0,
        recovered_state(file).term < acted ==> {
            let out = term_lost(time, node, acted, file);
            out.len() == 1 && out[0].kind == "durable_term_lost"@ && out[0].node == Some(node)
                && out[0].time == time
        },
{
}

/// Whether two logs hold the same entry at a place.
pub open spec fn same_at(before: Seq<EntryView>, after: Seq<EntryView>, j: int) -> bool {
    j < after.len() && after[j] == before[j]
}

/// Whether one of the first entries of a log did not come through unchanged.
pub open spec fn some_lost(before: Seq<EntryView>, n: u64, after: Seq<EntryView>) -> bool {
    exists|j: int| 0 <= j < n && j < before.len() && !#[trigger] same_at(before, after, j)
}

proof fn lemma_some_lost(before: Seq<EntryView>, n: u64, after: Seq<EntryView>)
    ensures
        first_lost(before, n as int, after, 0) is Some <==> some_lost(before, n, after),
{
    law_first_lost(before, n as int, after, 0);
    match first_lost(before, n as int, after, 0) {
        Some(k) => {
            assert(!kept_at(before, after, k));
            assert(!same_at(before, after, k));
        },
        None => {
            if some_lost(before, n, after) {
                let j = choose|j: int|
                    0 <= j < n && j < before.len() && !#[trigger] same_at(before, after, j);
                assert(kept_at(before, after, j));
            }
        },
    }
}

/// A node that comes back without something it had synced is named for it, once;
/// one that comes back with all of it is not, whatever else it lost or found.
pub proof fn law_lost_entries_are_named(
    time: Nanos,
    node: NodeId,
    before: Seq<EntryView>,
    durable: u64,
    after: Seq<EntryView>,
)
    ensures
        ({
            let out = synced_lost(time, node, before, durable, after);
            &&& some_lost(before, durable, after) ==> out.len() == 1 && out[0].kind
                == "durable_entry_lost"@ && out[0].node == Some(node) && out[0].time == time
            &&& !some_lost(before, durable, after) ==> out.len() == 0
        }),
{
    lemma_some_lost(before, durable, after);
}

/// A node that claims to hold durably what its disk does not is named for it,
/// once; one whose disk backs its claim is not.
pub proof fn law_false_claims_are_named(
    time: Nanos,
    node: NodeId,
    entries: Seq<EntryView>,
    durable: u64,
    file: Seq<u8>,
)
    ensures
        ({
            let out = claim_unbacked(time, node, entries, durable, file);
            let lost = some_lost(entries, durable, DurableState::of(file).entries);
            &&& lost ==> out.len() == 1 && out[0].kind == "durable_claim_unbacked"@ && out[0].node
                == Some(node) && out[0].time == time
            &&& !lost ==> out.len() == 0
        }),
{
    lemma_some_lost(entries, durable, DurableState::of(file).entries);
}

/// Every replica that has applied as much as the first one and holds other data
/// is named, and no other.
pub proof fn law_diverged_replicas_are_named(time: Nanos, rs: Seq<ReplicaView>, n: nat, id: NodeId)
    requires
        n <= rs.len(),
    ensures
        (exists|k: int|
            0 <= k < diverged(time, rs, n).len() && (#[trigger] diverged(time, rs, n)[k]).node == Some(
                id,
            )) <==> (exists|i: int|
            1 <= i < n && (#[trigger] rs[i]).id == id && rs[i].applied == rs[0].applied && rs[i].state
                != rs[0].state),
        forall|k: int|
            0 <= k < diverged(time, rs, n).len() ==> (#[trigger] diverged(time, rs, n)[k]).kind
                == "replicas_diverged"@ && diverged(time, rs, n)[k].time == time,
    decreases n,
{
    if n > 1 {
        law_diverged_replicas_are_named(time, rs, (n - 1) as nat, id);
        let (a, b) = (diverged(time, rs, (n - 1) as nat), diverged(time, rs, n));
        let r = rs[n - 1];
        let bad = r.applied == rs[0].applied && r.state != rs[0].state;
        assert forall|k: int| 0 <= k < b.len() implies (#[trigger] b[k]).kind
            == "replicas_diverged"@ && b[k].time == time by {
            if k < a.len() {
                assert(b[k] == a[k]);
            }
        }
        if exists|k: int| 0 <= k < a.len() && (#[trigger] a[k]).node == Some(id) {
            let k = choose|k: int| 0 <= k < a.len() && (#[trigger] a[k]).node == Some(id);
            assert(b[k].node == Some(id));
        }
        if bad && r.id == id {
            assert(b[b.len() - 1].node == Some(id));
            assert(rs[n - 1].id == id);
        }
        if exists|k: int| 0 <= k < b.len() && (#[trigger] b[k]).node == Some(id) {
            let k = choose|k: int| 0 <= k < b.len() && (#[trigger] b[k]).node == Some(id);
            if k < a.len() {
                assert(a[k].node == Some(id));
            } else {
                assert(rs[n - 1].id == id);
            }
        }
    }
}

} // verus!
