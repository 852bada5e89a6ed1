//! What a run came to.

use crate::checker::linearizability::{History, Verdict, VerdictView};
use crate::checker::operation::OperationView;
use crate::checker::report::{violation_lines, Report, ViolationView};
use crate::harness::config::SimConfig;
use crate::simcore::trace::Fingerprint;
use crate::simcore::Nanos;
use crate::text::{decimal, decimal_str, opt_text, own, pad_left, pad_left_str, put_num};
use vstd::prelude::*;

verus! {

#[derive(Clone, Copy, Debug, PartialEq, Eq)]
pub struct RunStats {
    pub events: u64,
    pub sim_time: Nanos,
    pub ops_started: u64,
    pub ops_completed: u64,
    pub ops_abandoned: u64,
    pub retries: u64,
    pub max_committed: u64,
    pub elections: u64,
    pub leaders_elected: u64,
    pub truncations: u64,
    pub crashes: u64,
    pub restarts: u64,
    pub io_failures: u64,
    pub partitions: u64,
    pub messages_sent: u64,
    pub messages_delivered: u64,
    pub messages_dropped: u64,
    pub bad_messages: u64,
    pub linearizability_steps: u64,
}

impl RunStats {
    /// Nothing counted yet.
    pub open spec fn zero() -> RunStats {
        RunStats {
            events: 0,
            sim_time: 0,
            ops_started: 0,
            ops_completed: 0,
            ops_abandoned: 0,
            retries: 0,
            max_committed: 0,
            elections: 0,
            leaders_elected: 0,
            truncations: 0,
            crashes: 0,
            restarts: 0,
            io_failures: 0,
            partitions: 0,
            messages_sent: 0,
            messages_delivered: 0,
            messages_dropped: 0,
            bad_messages: 0,
            linearizability_steps: 0,
        }
    }
}

impl Default for RunStats {
    fn default() -> (r: RunStats)
        ensures
            r == RunStats::zero(),
    {
        RunStats {
            events: 0,
            sim_time: 0,
            ops_started: 0,
            ops_completed: 0,
            ops_abandoned: 0,
            retries: 0,
            max_committed: 0,
            elections: 0,
            leaders_elected: 0,
            truncations: 0,
            crashes: 0,
            restarts: 0,
            io_failures: 0,
            partitions: 0,
            messages_sent: 0,
            messages_delivered: 0,
            messages_dropped: 0,
            bad_messages: 0,
            linearizability_steps: 0,
        }
    }
}

/// The result of one run.
#[derive(Debug)]
pub struct RunOutcome {
    pub seed: u64,
    pub config: SimConfig,
    pub fingerprint: Fingerprint,
    pub report: Report,
    pub verdict: Verdict,
    pub stats: RunStats,
    /// True if the run hit its event budget before finishing.
    pub incomplete: bool,
    pub history: History,
    pub trace: Option<String>,
}

/// The result of one run as a mathematical value.
#[verifier::ext_equal]
pub struct RunView {
    pub seed: u64,
    pub config: SimConfig,
    pub fingerprint: Fingerprint,
    pub report: Seq<ViolationView>,
    pub verdict: VerdictView,
    pub stats: RunStats,
    pub incomplete: bool,
    pub history: Seq<OperationView>,
    pub trace: Option<Seq<char>>,
}

impl View for RunOutcome {
    type V = RunView;

    open spec fn view(&self) -> RunView {
        RunView {
            seed: self.seed,
            config: self.config,
            fingerprint: self.fingerprint,
            report: self.report@,
            verdict: self.verdict@,
            stats: self.stats,
            incomplete: self.incomplete,
            history: self.history@,
            trace: opt_text(self.trace),
        }
    }
}

impl RunView {
    /// Whether anything was wrong.
    pub open spec fn failed(self) -> bool {
        self.report.len() > 0
    }

    /// How the run failed, where it did.
    pub open spec fn signature(self) -> Seq<char> {
        if self.failed() {
            self.report[0].kind
        } else if self.incomplete {
            "incomplete"@
        } else {
            "ok"@
        }
    }

    /// The run in one line.
    pub open spec fn summary(self) -> Seq<char> {
        let s = self.stats;
        "seed "@ + pad_left(decimal(self.seed as nat), 6) + " | "@ + pad_left(
            decimal(s.ops_completed as nat),
            5,
        ) + " ops ("@ + decimal(s.ops_abandoned as nat) + " abandoned) | "@ + decimal(
            s.max_committed as nat,
        ) + " committed | "@ + decimal(s.elections as nat) + " elections, "@ + decimal(
            s.leaders_elected as nat,
        ) + " leaders | "@ + decimal(s.crashes as nat) + " crashes, "@ + decimal(
            s.partitions as nat,
        ) + " partitions | "@ + decimal(s.events as nat) + " events | fp "@
            + self.fingerprint.label() + " | "@ + self.signature()
    }

    /// The run with everything that was wrong with it.
    pub open spec fn detail(self) -> Seq<char> {
        let head = self.summary() + "\n"@;
        let listed = if self.failed() {
            head + "\nviolations:\n"@ + violation_lines(self.report)
        } else {
            head
        };
        match self.verdict {
            VerdictView::Unknown { key, reason } => listed
                + "\nlinearizability undecided for key "@ + key + ": "@ + reason + "\n"@,
            _ => listed,
        }
    }
}

impl RunOutcome {
    pub fn failed(&self) -> (r: bool)
        ensures
            r == self@.failed(),
    {
        !self.report.is_empty()
    }

    /// A stable name for *how* this run failed. Shrinking uses it to insist
    /// that a smaller configuration reproduces the same bug rather than some
    /// other one it happened to stumble into.
    pub fn signature(&self) -> (r: &'static str)
        ensures
            r@ == self@.signature(),
    {
        match self.report.signature() {
            Some(kind) => kind,
            None => if self.incomplete {
                "incomplete"
            } else {
                "ok"
            },
        }
    }

    pub fn summary(&self) -> (r: String)
        ensures
            r@ == self@.summary(),
    {
        let s = &self.stats;
        let mut out = own("seed ");
        out.append(pad_left_str(decimal_str(self.seed).as_str(), 6).as_str());
        out.append(" | ");
        out.append(pad_left_str(decimal_str(s.ops_completed).as_str(), 5).as_str());
        out.append(" ops (");
        put_num(&mut out, s.ops_abandoned);
        out.append(" abandoned) | ");
        put_num(&mut out, s.max_committed);
        out.append(" committed | ");
        put_num(&mut out, s.elections);
        out.append(" elections, ");
        put_num(&mut out, s.leaders_elected);
        out.append(" leaders | ");
        put_num(&mut out, s.crashes);
        out.append(" crashes, ");
        put_num(&mut out, s.partitions);
        out.append(" partitions | ");
        put_num(&mut out, s.events);
        out.append(" events | fp ");
        out.append(self.fingerprint.text().as_str());
        out.append(" | ");
        out.append(self.signature());
        out
    }

    pub fn detail(&self) -> (r: String)
        ensures
            r@ == self@.detail(),
    {
        let mut s = self.summary();
        s.append("\n");
        if !self.report.is_empty() {
            s.append("\nviolations:\n");
            s.append(self.report.render().as_str());
        }
        if let Verdict::Unknown { key, reason } = &self.verdict {
            s.append("\nlinearizability undecided for key ");
            s.append(key.as_str());
            s.append(": ");
            s.append(reason.as_str());
            s.append("\n");
        }
        s
    }
}

} // verus!
