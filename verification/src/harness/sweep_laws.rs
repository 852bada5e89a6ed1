//! What a sweep covers and what it finds.

use crate::harness::cluster_model::run_of;
use crate::harness::config::SimConfig;
use crate::harness::outcome::RunView;
use crate::harness::run_laws::lemma_driven_cfg;
use crate::harness::sweep::{
    failure_lines, filed, run_line, seed_texts, tally_lines, FailureView, SweepConfig, SweepView,
};
use crate::kvstore::table::listing;
use crate::text::{decimal, join};
use vstd::prelude::*;

verus! {

/// Every seed of the range is run exactly once: the first place runs the first
/// seed, each place runs one seed further than the place before it, so no two
/// run the same one and none is left out. Apart from its seed, every run is the
/// one that was asked for, with its fault window inside it.
pub proof fn law_every_seed_is_run_once(cfg: SweepConfig, i: int, j: int)
    requires
        cfg.sound(),
        0 <= i < cfg.count,
        0 <= j < cfg.count,
    ensures
        cfg.nth(i).seed == cfg.start_seed + i,
        cfg.nth(i).seed - cfg.nth(j).seed == i - j,
        i != j ==> cfg.nth(i) != cfg.nth(j),
        forall|s: u64|
            cfg.start_seed <= s < cfg.start_seed + cfg.count ==> (#[trigger] cfg.nth(
                s - cfg.start_seed,
            )).seed == s,
        (SimConfig { seed: cfg.base.seed, ..cfg.nth(i) }) == cfg.base.normalised(),
        cfg.nth(i).runnable(),
{
}

/// A run is the run of its own seed and configuration.
pub proof fn law_runs_name_their_seed(cfg: SimConfig)
    requires
        cfg.runnable(),
    ensures
        run_of(cfg).seed == cfg.seed,
        run_of(cfg).config == cfg,
{
    reveal(run_of);
    lemma_driven_cfg(cfg);
}

/// How many failures are of a kind.
pub open spec fn of_kind(fs: Seq<FailureView>, kind: Seq<char>) -> nat
    decreases fs.len(),
{
    if fs.len() == 0 {
        0
    } else {
        of_kind(fs.drop_last(), kind) + if fs.last().signature == kind {
            1nat
        } else {
            0
        }
    }
}

proof fn lemma_filed(fs: Seq<FailureView>, f: FailureView, kind: Seq<char>)
    ensures
        filed(fs, f).len() == fs.len() + 1,
        filed(fs, f).to_multiset() == fs.to_multiset().insert(f),
        of_kind(filed(fs, f), kind) == of_kind(fs, kind) + if f.signature == kind {
            1nat
        } else {
            0
        },
    decreases fs.len(),
{
    broadcast use vstd::seq_lib::group_to_multiset_ensures;

    if fs.len() == 0 || fs.last().seed <= f.seed {
        assert(fs.push(f).drop_last() =~= fs);
    } else {
        let d = fs.drop_last();
        lemma_filed(d, f, kind);
        assert(filed(fs, f).drop_last() =~= filed(d, f));
        assert(d.push(fs.last()) =~= fs);
        assert(filed(fs, f).to_multiset() =~= fs.to_multiset().insert(f));
    }
}

/// What recording a run changes: one more run, one more failure listed exactly
/// where it failed, with its seed and its kind, and the totals by what the run
/// brought.
pub proof fn law_recording_a_run(r: SweepView, o: RunView, kind: Seq<char>)
    requires
        r.runs < u64::MAX,
        r.incomplete < u64::MAX,
        r.undecided < u64::MAX,
        r.events + o.stats.events <= u64::MAX,
        r.ops_completed + o.stats.ops_completed <= u64::MAX,
    ensures
        ({
            let t = r.recorded(o);
            let f = FailureView { seed: o.seed, signature: o.signature(), detail: o.detail() };
            &&& t.runs == r.runs + 1
            &&& o.report.len() == 0 ==> t.failures == r.failures && t.by_signature == r.by_signature
            &&& o.report.len() > 0 ==> t.failures.to_multiset() == r.failures.to_multiset().insert(f)
                && t.failures.len() == r.failures.len() + 1 && f.signature == o.report[0].kind
            &&& t.incomplete - r.incomplete == if o.incomplete {
                1int
            } else {
                0
            }
            &&& t.undecided - r.undecided == if o.verdict is Unknown {
                1int
            } else {
                0
            }
            &&& t.events - r.events == o.stats.events
            &&& t.ops_completed - r.ops_completed == o.stats.ops_completed
            &&& t.elapsed == r.elapsed
        }),
{
    let f = FailureView { seed: o.seed, signature: o.signature(), detail: o.detail() };
    lemma_filed(r.failures, f, kind);
}

/// Whether the table of kinds counts the failures.
pub open spec fn tallies(r: SweepView) -> bool {
    forall|kind: Seq<char>|
        of_kind(r.failures, kind) == (if #[trigger] r.by_signature.contains_key(kind) {
            r.by_signature[kind] as nat
        } else {
            0
        })
}

/// The table of kinds counts the failures of each kind, as long as there are
/// numbers to count with.
pub proof fn law_kinds_are_tallied(r: SweepView, o: RunView)
    requires
        tallies(r),
        r.failures.len() < u64::MAX,
    ensures
        tallies(SweepView::blank()),
        tallies(r.recorded(o)),
{
    let f = FailureView { seed: o.seed, signature: o.signature(), detail: o.detail() };
    let t = r.recorded(o);
    assert forall|kind: Seq<char>|
        of_kind(t.failures, kind) == (if #[trigger] t.by_signature.contains_key(kind) {
            t.by_signature[kind] as nat
        } else {
            0
        }) by {
        lemma_filed(r.failures, f, kind);
        lemma_of_kind(r.failures, kind);
        assert(of_kind(r.failures, kind) == (if r.by_signature.contains_key(kind) {
            r.by_signature[kind] as nat
        } else {
            0
        }));
    }
}

proof fn lemma_of_kind(fs: Seq<FailureView>, kind: Seq<char>)
    ensures
        of_kind(fs, kind) <= fs.len(),
    decreases fs.len(),
{
    if fs.len() > 0 {
        lemma_of_kind(fs.drop_last(), kind);
    }
}

/// Whether failures list a seed.
pub open spec fn lists(fs: Seq<FailureView>, seed: u64) -> bool {
    exists|k: int| 0 <= k < fs.len() && (#[trigger] fs[k]).seed == seed
}

/// How many of the first `n` runs of a sweep fail.
pub open spec fn failing_among(cfg: SweepConfig, n: nat) -> nat
    decreases n,
{
    if n == 0 {
        0
    } else {
        failing_among(cfg, (n - 1) as nat) + if run_of(cfg.nth(n - 1)).report.len() > 0 {
            1nat
        } else {
            0
        }
    }
}

/// A sweep that does not stop early runs every seed it was asked to, and lists
/// exactly the seeds whose run failed, each as often as it failed: once.
pub proof fn law_a_sweep_lists_the_failing_seeds(cfg: SweepConfig, n: nat)
    requires
        cfg.sound(),
        n <= cfg.count,
        cfg.stop_after == 0,
    ensures
        ({
            let r = SweepView::swept(cfg, n);
            &&& r.runs == n
            &&& r.failures.len() == failing_among(cfg, n)
            &&& forall|s: u64| #[trigger]
                lists(r.failures, s) <==> (cfg.start_seed <= s < cfg.start_seed + n && run_of(
                    cfg.nth(s - cfg.start_seed),
                ).report.len() > 0)
        }),
    decreases n,
{
    let r = SweepView::swept(cfg, n);
    if n > 0 {
        law_a_sweep_lists_the_failing_seeds(cfg, (n - 1) as nat);
        let before = SweepView::swept(cfg, (n - 1) as nat);
        let o = run_of(cfg.nth(n - 1));
        law_runs_name_their_seed(cfg.nth(n - 1));
        let f = FailureView { seed: o.seed, signature: o.signature(), detail: o.detail() };
        lemma_filed(before.failures, f, f.signature);
        assert forall|s: u64| #[trigger]
            lists(r.failures, s) <==> (cfg.start_seed <= s < cfg.start_seed + n && run_of(
                cfg.nth(s - cfg.start_seed),
            ).report.len() > 0) by {
            assert(lists(before.failures, s) <==> (cfg.start_seed <= s < cfg.start_seed + (n - 1)
                && run_of(cfg.nth(s - cfg.start_seed)).report.len() > 0));
            if o.report.len() > 0 {
                lemma_lists(before.failures, f, s);
            }
        }
    }
}

proof fn lemma_lists(fs: Seq<FailureView>, f: FailureView, s: u64)
    ensures
        lists(filed(fs, f), s) <==> lists(fs, s) || f.seed == s,
    decreases fs.len(),
{
    let r = filed(fs, f);
    if fs.len() == 0 || fs.last().seed <= f.seed {
        if f.seed == s {
            assert(r[fs.len() as int].seed == s);
        }
        if lists(fs, s) {
            let k = choose|k: int| 0 <= k < fs.len() && (#[trigger] fs[k]).seed == s;
            assert(r[k].seed == s);
        }
        if lists(r, s) {
            let k = choose|k: int| 0 <= k < r.len() && (#[trigger] r[k]).seed == s;
            if k < fs.len() {
                assert(fs[k].seed == s);
            }
        }
    } else {
        let d = fs.drop_last();
        lemma_lists(d, f, s);
        let q = filed(d, f);
        if lists(q, s) {
            let k = choose|k: int| 0 <= k < q.len() && (#[trigger] q[k]).seed == s;
            assert(r[k].seed == s);
        }
        if lists(d, s) {
            let k = choose|k: int| 0 <= k < d.len() && (#[trigger] d[k]).seed == s;
            assert(fs[k].seed == s);
        }
        if fs.last().seed == s {
            assert(fs[fs.len() - 1].seed == s);
            assert(r[r.len() - 1].seed == s);
        }
        if lists(r, s) {
            let k = choose|k: int| 0 <= k < r.len() && (#[trigger] r[k]).seed == s;
            if k < q.len() {
                assert(q[k].seed == s);
            }
        }
        if lists(fs, s) {
            let k = choose|k: int| 0 <= k < fs.len() && (#[trigger] fs[k]).seed == s;
            if k < d.len() {
                assert(d[k].seed == s);
            }
        }
    }
}

/// A sweep that may stop early lists no more failing seeds than it was asked
/// for, and stops only once it has that many: otherwise every seed was run.
pub proof fn law_a_sweep_stops_when_asked(cfg: SweepConfig, n: nat)
    requires
        cfg.stop_after > 0,
        n <= cfg.count,
    ensures
        ({
            let r = SweepView::swept(cfg, n);
            &&& r.failures.len() <= cfg.stop_after
            &&& r.failures.len() < cfg.stop_after ==> r.runs == n
            &&& r.runs <= n
        }),
    decreases n,
{
    if n > 0 {
        law_a_sweep_stops_when_asked(cfg, (n - 1) as nat);
        let before = SweepView::swept(cfg, (n - 1) as nat);
        let o = run_of(cfg.nth(n - 1));
        let f = FailureView { seed: o.seed, signature: o.signature(), detail: o.detail() };
        lemma_filed(before.failures, f, f.signature);
    }
}

/// A sweep says a line about a run where it failed, and about every run where it
/// is told to.
pub proof fn law_failing_runs_are_announced(o: RunView)
    ensures
        run_line(o, true) == Some(o.summary()),
        run_line(o, false) is Some <==> o.report.len() > 0,
{
}

/// A sweep that found failures ends by naming every failing seed, in the order
/// they are listed in; it begins by saying how many there are.
pub proof fn law_every_failing_seed_is_named(r: SweepView, i: int)
    requires
        0 <= i < r.failures.len(),
    ensures
        seed_texts(r.failures).len() == r.failures.len(),
        seed_texts(r.failures)[i] == decimal(r.failures[i].seed as nat),
        exists|before: Seq<char>| #[trigger]
            (before + "reproduce with: sim replay --seed <"@ + join(seed_texts(r.failures), "|"@)
                + ">\n"@) == r.failing(),
        decimal(r.failures.len()).is_prefix_of(r.failing()),
        r.text() == r.head() + r.failing(),
{
    let n = r.failures.len();
    let shown = if n > 10 {
        10
    } else {
        n as int
    };
    let listed = decimal(n) + " FAILING SEEDS:\n"@ + tally_lines(listing(r.by_signature)) + "\n"@
        + failure_lines(r.failures.take(shown));
    let more = if n > 10 {
        listed + "... and "@ + decimal((n - 10) as nat) + " more\n"@
    } else {
        listed
    };
    assert(more + "reproduce with: sim replay --seed <"@ + join(seed_texts(r.failures), "|"@)
        + ">\n"@ == r.failing());
    assert(decimal(n) =~= r.failing().take(decimal(n).len() as int));
}

} // verus!
