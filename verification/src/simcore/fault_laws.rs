//! What faults are offered, how they are chosen, and whom they hit.

use crate::simcore::faults::{
    flagged, menu_entry, menu_total, nodes_with, pick_of, weighted, FaultChoice,
    FaultInjector, FaultView,
};
use crate::simcore::rng::{law_below_in_range, law_range_in_bounds, Rng};
use crate::simcore::{Nanos, NodeId};
use vstd::prelude::*;

verus! {

/// As many nodes may be down as leave a majority up, and no fewer; with leave to
/// lose the quorum, all but one.
pub proof fn law_the_limit_is_the_largest(inj: FaultInjector, n: nat)
    requires
        n > 0,
    ensures
        !inj.cfg.allow_quorum_loss ==> 2 * (n - inj.down_limit(n)) > n && 2 * (n - (inj.down_limit(n)
            + 1)) <= n,
        inj.cfg.allow_quorum_loss ==> n - inj.down_limit(n) == 1,
{
}

/// The nodes with a flag are those, in order, whose flag it is.
pub proof fn law_nodes_with_a_flag(flags: Seq<bool>, want: bool, n: int, node: NodeId)
    requires
        0 <= n <= flags.len() <= u32::MAX,
    ensures
        nodes_with(flags, want, n).contains(node) <==> node.0 < n && flags[node.0 as int] == want,
        forall|i: int, j: int|
            0 <= i < j < nodes_with(flags, want, n).len() ==> (#[trigger] nodes_with(
                flags,
                want,
                n,
            )[i]).0 < (#[trigger] nodes_with(flags, want, n)[j]).0,
        forall|i: int|
            0 <= i < nodes_with(flags, want, n).len() ==> (#[trigger] nodes_with(
                flags,
                want,
                n,
            )[i]).0 < n,
    decreases n,
{
    if n > 0 {
        law_nodes_with_a_flag(flags, want, n - 1, node);
        let (a, b) = (nodes_with(flags, want, n - 1), nodes_with(flags, want, n));
        if a.contains(node) {
            let k = choose|k: int| 0 <= k < a.len() && a[k] == node;
            assert(b[k] == node);
        }
        if b.contains(node) {
            let k = choose|k: int| 0 <= k < b.len() && b[k] == node;
            if k < a.len() {
                assert(a[k] == node);
            }
        }
        if node.0 == n - 1 && flags[n - 1] == want {
            assert(b[b.len() - 1] == node);
        }
        assert forall|i: int, j: int| 0 <= i < j < b.len() implies (#[trigger] b[i]).0 < (
        #[trigger] b[j]).0 by {
            if j < a.len() {
                assert(a[i].0 < a[j].0);
            } else {
                assert(a[i].0 < n - 1);
            }
        }
        assert forall|i: int| 0 <= i < b.len() implies (#[trigger] b[i]).0 < n by {
            if i < a.len() {
                assert(a[i].0 < n - 1);
            }
        }
    }
}

/// Whether a menu offers a choice at a weight.
pub open spec fn offers(menu: Seq<(u32, FaultChoice)>, weight: u32, choice: FaultChoice) -> bool {
    exists|k: int| 0 <= k < menu.len() && #[trigger] menu[k] == (weight, choice)
}

/// Whether a menu offers a choice at all.
pub open spec fn has_choice(menu: Seq<(u32, FaultChoice)>, choice: FaultChoice) -> bool {
    exists|k: int| 0 <= k < menu.len() && (#[trigger] menu[k]).1 == choice
}

/// A fault is on the menu exactly where its kind is enabled and there is someone
/// it can hit, and at the weight that was configured for it.
pub proof fn law_the_menu_is_exact(inj: FaultInjector, up: Seq<bool>)
    ensures
        ({
            let (m, c, n) = (inj.menu(up), inj.cfg, up.len());
            let down = nodes_with(up, false, n as int).len();
            let alive = nodes_with(up, true, n as int).len();
            let crash = c.enable_crashes && down < inj.down_limit(n) && alive > 0;
            let restart = c.enable_crashes && down > 0;
            let split = c.enable_partitions && n >= 2;
            let slow = c.enable_slow_links && n >= 2;
            &&& has_choice(m, FaultChoice::Crash) <==> crash
            &&& has_choice(m, FaultChoice::Restart) <==> restart
            &&& has_choice(m, FaultChoice::Partition) <==> split
            &&& has_choice(m, FaultChoice::Isolate) <==> split
            &&& has_choice(m, FaultChoice::Heal) <==> split
            &&& has_choice(m, FaultChoice::SlowLink) <==> slow
            &&& has_choice(m, FaultChoice::ClockJump) <==> c.enable_clock_skew
            &&& crash ==> offers(m, c.crash_weight, FaultChoice::Crash)
            &&& restart ==> offers(m, c.restart_weight, FaultChoice::Restart)
            &&& split ==> offers(m, c.partition_weight, FaultChoice::Partition) && offers(
                m,
                c.isolate_weight,
                FaultChoice::Isolate,
            ) && offers(m, c.heal_weight, FaultChoice::Heal)
            &&& slow ==> offers(m, c.slow_link_weight, FaultChoice::SlowLink)
            &&& c.enable_clock_skew ==> offers(m, c.clock_jump_weight, FaultChoice::ClockJump)
            &&& forall|i: int, j: int|
                0 <= i < j < m.len() ==> (#[trigger] m[i]).1 != (#[trigger] m[j]).1
        }),
{
    let (m, c, n) = (inj.menu(up), inj.cfg, up.len());
    let down = nodes_with(up, false, n as int).len();
    let alive = nodes_with(up, true, n as int).len();
    let p1 = 0int;
    let p2 = p1 + (if c.enable_crashes && down < inj.down_limit(n) && alive > 0 {
        1int
    } else {
        0
    });
    let p3 = p2 + (if c.enable_crashes && down > 0 {
        1int
    } else {
        0
    });
    let p4 = p3 + (if c.enable_partitions && n >= 2 {
        3int
    } else {
        0
    });
    let p5 = p4 + (if c.enable_slow_links && n >= 2 {
        1int
    } else {
        0
    });
    if p2 > p1 {
        assert(m[p1] == (c.crash_weight, FaultChoice::Crash));
    }
    if p3 > p2 {
        assert(m[p2] == (c.restart_weight, FaultChoice::Restart));
    }
    if p4 > p3 {
        assert(m[p3] == (c.partition_weight, FaultChoice::Partition));
        assert(m[p3 + 1] == (c.isolate_weight, FaultChoice::Isolate));
        assert(m[p3 + 2] == (c.heal_weight, FaultChoice::Heal));
    }
    if p5 > p4 {
        assert(m[p4] == (c.slow_link_weight, FaultChoice::SlowLink));
    }
    if c.enable_clock_skew {
        assert(m[p5] == (c.clock_jump_weight, FaultChoice::ClockJump));
    }
}

/// The weights before a place of a menu.
pub open spec fn weight_before(menu: Seq<(u32, FaultChoice)>, k: int) -> nat {
    menu_total(menu.take(k))
}

proof fn lemma_entry(menu: Seq<(u32, FaultChoice)>, i: int, pick: int, k: int)
    requires
        0 <= i <= k < menu.len(),
        weight_before(menu, k) - weight_before(menu, i) <= pick < weight_before(menu, k + 1)
            - weight_before(menu, i),
    ensures
        menu_entry(menu, i, pick) == Some(menu[k].1),
    decreases k - i,
{
    assert(menu.take(i + 1).drop_last() =~= menu.take(i));
    assert(menu.take(i + 1).last() == menu[i]);
    lemma_before(menu, i + 1, k);
    if i < k {
        lemma_entry(menu, i + 1, pick - menu[i].0, k);
    }
}

proof fn lemma_before(menu: Seq<(u32, FaultChoice)>, i: int, k: int)
    requires
        0 <= i <= menu.len(),
        k <= menu.len(),
    ensures
        i <= k ==> weight_before(menu, i) <= weight_before(menu, k),
    decreases k - i,
{
    if i < k {
        lemma_before(menu, i, k - 1);
        assert(menu.take(k).drop_last() =~= menu.take(k - 1));
    }
}

/// A choice is drawn by weight: of the numbers below the weights together, each
/// entry of the menu has as many as its own weight says, in the order of the
/// menu; with no weight at all nothing is chosen, and nothing drawn.
pub proof fn law_choices_are_weighted(rng: Rng, menu: Seq<(u32, FaultChoice)>, k: int)
    requires
        0 <= k < menu.len(),
        menu_total(menu) <= u64::MAX,
    ensures
        ({
            let (pick, r) = rng.below_of(menu_total(menu) as u64);
            &&& menu_total(menu) == 0 ==> weighted(rng, menu) == (None::<FaultChoice>, rng)
            &&& menu_total(menu) > 0 && weight_before(menu, k) <= pick < weight_before(menu, k)
                + menu[k].0 ==> weighted(rng, menu) == (Some(menu[k].1), r)
        }),
{
    let (pick, r) = rng.below_of(menu_total(menu) as u64);
    assert(menu.take(k + 1).drop_last() =~= menu.take(k));
    assert(menu.take(k + 1).last() == menu[k]);
    if menu_total(menu) > 0 && weight_before(menu, k) <= pick < weight_before(menu, k) + menu[k].0 {
        assert(weight_before(menu, 0) == 0) by {
            assert(menu.take(0) =~= Seq::<(u32, FaultChoice)>::empty());
        }
        lemma_entry(menu, 0, pick as int, k);
    }
}

/// Something is chosen wherever there is any weight.
pub proof fn law_something_is_chosen(rng: Rng, menu: Seq<(u32, FaultChoice)>)
    requires
        0 < menu_total(menu) <= u64::MAX,
    ensures
        weighted(rng, menu).0 is Some,
{
    let (pick, r) = rng.below_of(menu_total(menu) as u64);
    law_below_in_range(rng, menu_total(menu) as u64);
    assert(menu.take(0) =~= Seq::<(u32, FaultChoice)>::empty());
    assert(menu.take(menu.len() as int) =~= menu);
    lemma_some(menu, 0, pick as int);
}

proof fn lemma_some(menu: Seq<(u32, FaultChoice)>, i: int, pick: int)
    requires
        0 <= i <= menu.len(),
        0 <= pick < weight_before(menu, menu.len() as int) - weight_before(menu, i),
    ensures
        menu_entry(menu, i, pick) is Some,
    decreases menu.len() - i,
{
    if i < menu.len() {
        assert(menu.take(i + 1).drop_last() =~= menu.take(i));
        assert(menu.take(i + 1).last() == menu[i]);
        if pick >= menu[i].0 {
            lemma_some(menu, i + 1, pick - menu[i].0);
        }
    }
}

proof fn lemma_flagged(ids: Seq<NodeId>, flags: Seq<bool>, node: NodeId)
    ensures
        flagged(ids, flags).contains(node) <==> ids.contains(node) && node.0 < flags.len()
            && flags[node.0 as int],
        flagged(ids, flags).len() <= ids.len(),
    decreases ids.len(),
{
    if ids.len() > 0 {
        let d = ids.drop_last();
        lemma_flagged(d, flags, node);
        let (a, b) = (flagged(d, flags), flagged(ids, flags));
        if a.contains(node) {
            let k = choose|k: int| 0 <= k < a.len() && a[k] == node;
            assert(b[k] == node);
        }
        if b.contains(node) {
            let k = choose|k: int| 0 <= k < b.len() && b[k] == node;
            if k < a.len() {
                assert(a[k] == node);
            } else {
                assert(ids[ids.len() - 1] == node);
            }
        }
        if ids.contains(node) {
            let k = choose|k: int| 0 <= k < ids.len() && ids[k] == node;
            if k < d.len() {
                assert(d[k] == node);
            } else if (node.0 as int) < flags.len() && flags[node.0 as int] {
                assert(b[b.len() - 1] == node);
            }
        }
        if d.contains(node) {
            let k = choose|k: int| 0 <= k < d.len() && d[k] == node;
            assert(ids[k] == node);
        }
    }
}

/// Crashes are aimed. One that always goes for the leader hits the leader while
/// it is up; failing that, one that always goes for unsynced writes hits a node
/// that holds some, while there is one; and whom it hits is alive in any case.
/// Nobody is crashed for leading where there is no such bias.
pub proof fn law_crashes_are_aimed(
    inj: FaultInjector,
    rng: Rng,
    alive: Seq<NodeId>,
    leader: Option<NodeId>,
    unsynced: Seq<bool>,
)
    requires
        0 < alive.len() <= u32::MAX,
        inj.stats.crashes < u64::MAX,
        inj.stats.leader_targeted < u64::MAX,
        inj.stats.unsynced_targeted < u64::MAX,
    ensures
        ({
            let d = inj.aim_crash(rng, alive, leader, unsynced);
            let leads = leader is Some && alive.contains(leader->Some_0);
            let dirty = exists|t: NodeId| #[trigger]
                alive.contains(t) && t.0 < unsynced.len() && unsynced[t.0 as int];
            &&& d.action matches Some(FaultView::Crash(t)) && alive.contains(t)
            &&& leads && inj.cfg.leader_bias_ppm >= 1_000_000 ==> d.action == Some(
                FaultView::Crash(leader->Some_0),
            ) && d.injector.stats.leader_targeted == inj.stats.leader_targeted + 1
            &&& (!leads || inj.cfg.leader_bias_ppm == 0) ==> d.injector.stats.leader_targeted
                == inj.stats.leader_targeted
            &&& (!leads || inj.cfg.leader_bias_ppm == 0) && dirty && inj.cfg.unsynced_bias_ppm
                >= 1_000_000 ==> (d.action matches Some(FaultView::Crash(t)) && unsynced[t.0 as int]
                && d.injector.stats.unsynced_targeted == inj.stats.unsynced_targeted + 1)
            &&& !dirty || inj.cfg.unsynced_bias_ppm == 0 ==> d.injector.stats.unsynced_targeted
                == inj.stats.unsynced_targeted
            &&& d.injector.stats.crashes == inj.stats.crashes + 1
            &&& d.injector.cfg == inj.cfg && d.injector.recovered == inj.recovered
        }),
{
    let dirty = flagged(alive, unsynced);
    assert forall|t: NodeId| #[trigger] dirty.contains(t) <==> alive.contains(t) && t.0
        < unsynced.len() && unsynced[t.0 as int] by {
        lemma_flagged(alive, unsynced, t);
    }
    lemma_flagged(alive, unsynced, NodeId(0));
    assert forall|g: Rng, ids: Seq<NodeId>| ids.len() > 0 && ids.len() <= u64::MAX implies ids.contains(
        (#[trigger] pick_of(g, ids)).0,
    ) by {
        law_below_in_range(g, ids.len() as u64);
        let i = g.below_of(ids.len() as u64).0 as int;
        assert(ids[i] == pick_of(g, ids).0);
    }
    if dirty.len() > 0 {
        assert(dirty.contains(dirty[0]));
    }
    if exists|t: NodeId| #[trigger]
        alive.contains(t) && t.0 < unsynced.len() && unsynced[t.0 as int] {
        let t = choose|t: NodeId| #[trigger]
            alive.contains(t) && t.0 < unsynced.len() && unsynced[t.0 as int];
        assert(dirty.contains(t));
        assert(dirty.len() > 0);
    }
}

/// Isolations are aimed at the leader in the same way; otherwise any node is
/// cut off, and none that does not exist.
pub proof fn law_isolations_are_aimed(inj: FaultInjector, rng: Rng, n: nat, leader: Option<NodeId>)
    requires
        0 < n <= u32::MAX,
        inj.stats.isolations < u64::MAX,
        inj.stats.leader_targeted < u64::MAX,
    ensures
        ({
            let d = inj.aim_isolation(rng, n, leader);
            &&& d.action matches Some(FaultView::Isolate(t)) && (t.0 < n || Some(t) == leader)
            &&& leader is Some && inj.cfg.leader_bias_ppm >= 1_000_000 ==> d.action == Some(
                FaultView::Isolate(leader->Some_0),
            )
            &&& leader is None || inj.cfg.leader_bias_ppm == 0 ==> (d.action matches Some(
                FaultView::Isolate(t),
            ) && t.0 < n) && d.injector.stats.leader_targeted == inj.stats.leader_targeted
            &&& d.injector.stats.isolations == inj.stats.isolations + 1
        }),
{
    assert forall|g: Rng| (#[trigger] g.below_of(n as u64)).0 < n by {
        law_below_in_range(g, n as u64);
    }
}

/// Each choice becomes the fault it names, is counted as that, and hits nodes
/// that exist: a slow link joins two different nodes, a clock jumps no further
/// than it may.
pub proof fn law_choices_are_carried_out(
    inj: FaultInjector,
    rng: Rng,
    choice: FaultChoice,
    up: Seq<bool>,
    leader: Option<NodeId>,
    unsynced: Seq<bool>,
)
    requires
        2 <= up.len() <= u32::MAX,
        inj.stats.heals < u64::MAX && inj.stats.slow_links < u64::MAX && inj.stats.clock_jumps
            < u64::MAX && inj.stats.restarts < u64::MAX && inj.stats.partitions < u64::MAX,
        choice is Restart ==> exists|i: int| 0 <= i < up.len() && !#[trigger] up[i],
    ensures
        ({
            let d = inj.perform(rng, choice, up, leader, unsynced);
            let (a, b) = (inj.stats, d.injector.stats);
            &&& d.injector.cfg == inj.cfg && d.injector.recovered == inj.recovered
            &&& choice is Crash ==> d.action is Some && d.action->Some_0 is Crash
            &&& choice is Isolate ==> d.action is Some && d.action->Some_0 is Isolate
            &&& choice is Partition ==> d.action is Some && d.action->Some_0 is Partition
                && b.partitions == a.partitions + 1
            &&& choice is Heal ==> d.action == Some(FaultView::HealNetwork) && b.heals == a.heals + 1
                && d.rng == rng
            &&& choice is Restart ==> (d.action matches Some(FaultView::Restart(t)) && t.0 < up.len()
                && !up[t.0 as int] && b.restarts == a.restarts + 1)
            &&& choice is SlowLink ==> (d.action matches Some(FaultView::SlowLink(x, y)) && x != y
                && x.0 < up.len() && y.0 < up.len() && b.slow_links == a.slow_links + 1)
            &&& choice is ClockJump ==> (d.action matches Some(FaultView::ClockJump(t, delta)) && t.0
                < up.len() && -inj.cfg.max_clock_jump <= delta <= inj.cfg.max_clock_jump
                && b.clock_jumps == a.clock_jumps + 1)
        }),
{
    let n = up.len() as int;
    assert forall|g: Rng| (#[trigger] g.below_of(n as u64)).0 < n by {
        law_below_in_range(g, n as u64);
    }
    law_range_in_bounds(rng, 0, inj.cfg.max_clock_jump);
    if choice is Restart {
        let down = nodes_with(up, false, n);
        let i = choose|i: int| 0 <= i < up.len() && !#[trigger] up[i];
        law_nodes_with_a_flag(up, false, n, NodeId(i as u32));
        assert(down.len() > 0);
        lemma_few(up, false, n);
        law_below_in_range(rng, down.len() as u64);
        let t = pick_of(rng, down).0;
        let k = rng.below_of(down.len() as u64).0 as int;
        assert(down[k] == t);
        assert(down.contains(t));
        law_nodes_with_a_flag(up, false, n, t);
    }
    if choice is SlowLink {
        let (a, r) = rng.below_of(n as u64);
        let (b, q) = r.below_of(n as u64);
        if a == b {
            if b + 1 < n {
                assert((b + 1) % n == b + 1) by (nonlinear_arith)
                    requires
                        0 <= b + 1 < n,
                ;
            } else {
                assert(n % n == 0) by (nonlinear_arith)
                    requires
                        n > 1,
                ;
            }
        }
    }
}

proof fn lemma_few(flags: Seq<bool>, want: bool, n: int)
    requires
        0 <= n,
    ensures
        nodes_with(flags, want, n).len() <= n,
    decreases n,
{
    if n > 0 {
        lemma_few(flags, want, n - 1);
    }
}

/// Inside the window, with faults enabled, every decision is counted as a tick,
/// and strikes wherever anything that is on the menu has weight.
pub proof fn law_faults_strike_inside_the_window(
    inj: FaultInjector,
    rng: Rng,
    now: Nanos,
    up: Seq<bool>,
    leader: Option<NodeId>,
    unsynced: Seq<bool>,
)
    requires
        inj.cfg.window.0 <= now < inj.cfg.window.1,
        inj.cfg.some_enabled(),
        inj.stats.ticks < u64::MAX,
        menu_total(inj.menu(up)) <= u64::MAX,
    ensures
        ({
            let d = inj.decision(rng, now, up, leader, unsynced);
            &&& d.injector.stats.ticks == inj.stats.ticks + 1
            &&& menu_total(inj.menu(up)) > 0 ==> d.action is Some
            &&& menu_total(inj.menu(up)) == 0 ==> d.action is None
        }),
{
    if menu_total(inj.menu(up)) > 0 {
        law_something_is_chosen(rng, inj.menu(up));
    }
}

} // verus!
