//! Replaying a seed, and proving the replay is faithful.
//!
//! Reproducing a failure is only useful if the reproduction is the *same* run.
//! So replay does two things at once: it re-runs the seed with tracing turned
//! up, and it runs it several times over to confirm every run produces an
//! identical fingerprint.
//!
//! That second part is not ceremony. The fingerprint is fed only by significant
//! state changes, and is deliberately independent of the log level -- so a
//! silent run and a fully traced run must agree. If they ever disagreed, tracing
//! would be perturbing the system, and every seed recorded so far would be
//! suspect.

use crate::checker::report::{violation_views, Violation, ViolationView};
use crate::harness::cluster::run;
use crate::harness::cluster_model::run_of;
use crate::harness::config::SimConfig;
use crate::harness::outcome::{RunOutcome, RunView};
use crate::harness::trace_laws::{law_tracing_changes_nothing, same_run};
use crate::simcore::determinism::{judge, judged, law_judged, Divergence};
use crate::simcore::trace::{Fingerprint, Level};
use crate::text::{copy_opt, decimal, own, put_num};
use vstd::prelude::*;

verus! {

pub struct ReplayResult {
    pub outcome: RunOutcome,
    pub fingerprint: Fingerprint,
    /// One entry per verification run, in order.
    pub fingerprints: Vec<Fingerprint>,
    pub divergence: Option<Divergence>,
    pub trace: String,
}

/// What a replay came to, as a mathematical value.
#[verifier::ext_equal]
pub struct ReplayView {
    pub outcome: RunView,
    pub fingerprint: Fingerprint,
    pub fingerprints: Seq<Fingerprint>,
    pub divergence: Option<Divergence>,
    pub trace: Seq<char>,
}

impl View for ReplayResult {
    type V = ReplayView;

    open spec fn view(&self) -> ReplayView {
        ReplayView {
            outcome: self.outcome@,
            fingerprint: self.fingerprint,
            fingerprints: self.fingerprints@,
            divergence: self.divergence,
            trace: self.trace@,
        }
    }
}

/// The lines of a report as comments.
pub open spec fn commented(vs: Seq<ViolationView>) -> Seq<char>
    decreases vs.len(),
{
    if vs.len() == 0 {
        ""@
    } else {
        commented(vs.drop_last()) + "#   "@ + vs.last().line() + "\n"@
    }
}

impl ReplayView {
    /// The replay in words.
    pub open spec fn text(self) -> Seq<char> {
        self.outcome.detail() + "\n"@ + match self.divergence {
            None => "determinism: "@ + decimal(self.fingerprints.len())
                + " runs agreed on fingerprint "@ + self.fingerprint.label() + "\n"@,
            Some(d) => "DETERMINISM FAILURE: "@ + d.words() + "\n"@
                + "the simulator is not reproducible; fix this before trusting any seed\n"@,
        }
    }

    /// What a trace file of the replay holds.
    pub open spec fn file(self) -> Seq<char> {
        let head = "# seed "@ + decimal(self.outcome.seed as nat) + "\n# fingerprint "@
            + self.fingerprint.label() + "\n# "@ + self.outcome.summary() + "\n"@;
        let listed = if self.outcome.failed() {
            head + "#\n# violations:\n"@ + commented(self.outcome.report)
        } else {
            head
        };
        listed + "\n"@ + self.trace
    }
}

impl ReplayResult {
    pub fn deterministic(&self) -> (r: bool)
        ensures
            r == (self@.divergence is None),
    {
        self.divergence.is_none()
    }

    pub fn render(&self) -> (r: String)
        ensures
            r@ == self@.text(),
    {
        let mut s = self.outcome.detail();
        s.append("\n");
        let mut t = own("");
        match &self.divergence {
            None => {
                t = own("determinism: ");
                put_num(&mut t, self.fingerprints.len() as u64);
                t.append(" runs agreed on fingerprint ");
                t.append(self.fingerprint.text().as_str());
                t.append("\n");
            },
            Some(d) => {
                t = own("DETERMINISM FAILURE: ");
                t.append(d.text().as_str());
                t.append("\n");
                t.append("the simulator is not reproducible; fix this before trusting any seed\n");
            },
        }
        s.append(t.as_str());
        s
    }

    /// What a file with the replay's trace holds: who, how it ended, and the
    /// trace itself.
    pub fn trace_file(&self) -> (r: String)
        ensures
            r@ == self@.file(),
    {
        let mut s = own("# seed ");
        put_num(&mut s, self.outcome.seed);
        s.append("\n# fingerprint ");
        s.append(self.fingerprint.text().as_str());
        s.append("\n# ");
        s.append(self.outcome.summary().as_str());
        s.append("\n");
        if !self.outcome.report.is_empty() {
            s.append("#\n# violations:\n");
            s.append(comment(self.outcome.report.violations()).as_str());
        }
        s.append("\n");
        s.append(self.trace.as_str());
        s
    }
}

fn comment(vs: &[Violation]) -> (r: String)
    ensures
        r@ == commented(violation_views(vs@)),
{
    let ghost all = violation_views(vs@);
    let mut s = own("");
    let mut i: usize = 0;
    while i < vs.len()
        invariant
            i <= vs@.len(),
            all == violation_views(vs@),
            s@ == commented(all.take(i as int)),
        decreases vs@.len() - i,
    {
        proof {
            assert(all.take(i + 1).drop_last() =~= all.take(i as int));
            assert(all.take(i + 1).last() == vs@[i as int]@);
        }
        s.append("#   ");
        s.append(vs[i].text().as_str());
        s.append("\n");
        i += 1;
    }
    assert(all.take(i as int) =~= all);
    s
}

/// What replaying comes to. Every run agrees, so there is nothing to report but
/// the run itself.
pub open spec fn replayed(cfg: SimConfig, level: Level, verify_runs: nat) -> ReplayView {
    let outcome = run_of(SimConfig { trace_level: level, ..cfg }.normalised());
    ReplayView {
        outcome,
        fingerprint: outcome.fingerprint,
        fingerprints: Seq::new(verify_runs + 1, |i: int| outcome.fingerprint),
        divergence: None,
        trace: match outcome.trace {
            Some(t) => t,
            None => ""@,
        },
    }
}

/// Re-run `cfg` with tracing at `level`, and verify it is reproducible.
///
/// `verify_runs` extra runs are made at the *silent* level; agreeing with the
/// traced run is what proves tracing is free of side effects.
pub fn replay(cfg: SimConfig, level: Level, verify_runs: usize) -> (r: ReplayResult)
    requires
        cfg.runnable(),
        verify_runs < usize::MAX,
    ensures
        r@ == replayed(cfg, level, verify_runs as nat),
        forall|i: int|
            0 <= i < r@.fingerprints.len() ==> #[trigger] r@.fingerprints[i] == r@.fingerprint,
{
    let mut traced = cfg;
    traced.trace_level = level;
    traced.normalise();
    let outcome = run(traced);
    let fingerprint = outcome.fingerprint;
    let trace = match copy_opt(&outcome.trace) {
        Some(t) => t,
        None => own(""),
    };
    let mut silent = cfg;
    silent.trace_level = Level::Off;
    silent.normalise();
    proof {
        law_tracing_changes_nothing(traced, Level::Off);
        assert(silent == (SimConfig { trace_level: Level::Off, ..traced }));
    }
    let mut fingerprints: Vec<Fingerprint> = Vec::new();
    fingerprints.push(fingerprint);
    let mut i: usize = 0;
    let mut agree = true;
    while i < verify_runs && agree
        invariant
            i <= verify_runs,
            agree,
            silent.runnable(),
            run_of(silent).fingerprint == fingerprint,
            fingerprints@ == Seq::new((i + 1) as nat, |j: int| fingerprint),
        decreases verify_runs - i,
    {
        let f = run(silent).fingerprint;
        fingerprints.push(f);
        if f != fingerprint {
            agree = false;
        }
        i += 1;
        assert(fingerprints@ =~= Seq::new((i + 1) as nat, |j: int| fingerprint));
    }
    proof {
        law_judged(fingerprints@);
        if let Err(d) = judged(fingerprints@, 1) {
            assert(fingerprints@[d.run as int] == fingerprints@[0]);
        }
    }
    let divergence = match judge(&fingerprints) {
        Ok(_) => None,
        Err(d) => Some(d),
    };
    let r = ReplayResult { outcome, fingerprint, fingerprints, divergence, trace };
    assert(r@ =~= replayed(cfg, level, verify_runs as nat));
    r
}

/// A replay is the run it replays: however it is traced, it comes to the same
/// fingerprint, report and history as the run itself, and is found to be
/// deterministic.
pub proof fn law_replays_are_faithful(cfg: SimConfig, level: Level, verify_runs: nat)
    ensures
        same_run(
            replayed(cfg, level, verify_runs).outcome,
            run_of(cfg.normalised()),
        ),
        replayed(cfg, level, verify_runs).divergence is None,
{
    let traced = SimConfig { trace_level: level, ..cfg }.normalised();
    law_tracing_changes_nothing(traced, cfg.trace_level);
    assert(cfg.normalised() == (SimConfig { trace_level: cfg.trace_level, ..traced }));
}

} // verus!
