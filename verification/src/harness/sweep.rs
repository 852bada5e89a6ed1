//! Running many seeds, looking for the ones that fail.
//!
//! Each run is a closed world, so seeds are embarrassingly parallel: a seed's
//! run depends only on its own configuration, never on how many others happened
//! to be running or in what order they finished. So what a sweep comes to is
//! stated for outcomes recorded one after another, and it does not matter in
//! which order that is.
//!
//! What comes out is a list of seeds. That is the whole product: a seed is a
//! bug report that never goes stale, needs no attachments, and reproduces on
//! anyone's machine.

use crate::checker::linearizability::Verdict;
use crate::count::{add_capped, bump, count_up, plus};
use crate::figures::{
    ones_text, put_ones, put_tenths, rate, rate_of, seconds, seconds_of, share, share_of, tenths_text,
};
use crate::harness::cluster::run;
use crate::harness::cluster_model::run_of;
use crate::harness::config::SimConfig;
use crate::harness::outcome::{RunOutcome, RunView};
use crate::kvstore::table::{listing, row_views, KeyTable};
use crate::simcore::Nanos;
use crate::text::{
    decimal, decimal_str, join, join_str, opt_text, own, pad_left, pad_left_str, put_num, texts,
};
use vstd::prelude::*;

verus! {

#[derive(Clone, Copy, Debug)]
pub struct SweepConfig {
    pub base: SimConfig,
    pub start_seed: u64,
    pub count: u64,
    pub threads: usize,
    /// Stop early once this many failing seeds have been found. Zero means
    /// run the whole range.
    pub stop_after: usize,
    /// Print a line for every run rather than only for failures.
    pub verbose: bool,
}

impl SweepConfig {
    /// A hundred seeds of the usual run, on so many threads.
    pub fn on_threads(threads: usize) -> (r: SweepConfig)
        ensures
            r == (SweepConfig {
                base: SimConfig::standard(),
                start_seed: 1,
                count: 100,
                threads,
                stop_after: 0,
                verbose: false,
            }),
    {
        SweepConfig {
            base: SimConfig::default(),
            start_seed: 1,
            count: 100,
            threads,
            stop_after: 0,
            verbose: false,
        }
    }

    /// Every seed of the range can be named, and run.
    pub open spec fn sound(self) -> bool {
        &&& self.base.runnable()
        &&& self.count == 0 || self.start_seed + (self.count - 1) <= u64::MAX
    }

    /// The run of the seed at a place in the range.
    pub open spec fn nth(self, i: int) -> SimConfig {
        SimConfig { seed: (self.start_seed + i) as u64, ..self.base }.normalised()
    }

    /// How many threads are worth starting: at least one, and no more than
    /// there are seeds.
    pub fn workers(&self) -> (r: usize)
        ensures
            r >= 1,
            r <= self.threads || r == 1,
            r <= self.count || r == 1,
            self.threads <= self.count && self.threads >= 1 ==> r == self.threads,
            1 <= self.count < self.threads ==> r == self.count,
    {
        let most: u64 = if self.count == 0 {
            1
        } else {
            self.count
        };
        if self.threads == 0 {
            1
        } else if self.threads as u64 <= most {
            self.threads
        } else {
            most as usize
        }
    }

    /// Run the seed at a place in the range.
    pub fn run_nth(&self, i: u64) -> (r: RunOutcome)
        requires
            self.sound(),
            i < self.count,
        ensures
            r@ == run_of(self.nth(i as int)),
    {
        let mut cfg = self.base;
        cfg.seed = self.start_seed + i;
        cfg.normalise();
        run(cfg)
    }
}

#[derive(Debug)]
pub struct Failure {
    pub seed: u64,
    pub signature: &'static str,
    pub detail: String,
}

/// A failing seed, its texts as sequences of characters.
pub struct FailureView {
    pub seed: u64,
    pub signature: Seq<char>,
    pub detail: Seq<char>,
}

impl View for Failure {
    type V = FailureView;

    open spec fn view(&self) -> FailureView {
        FailureView { seed: self.seed, signature: self.signature@, detail: self.detail@ }
    }
}

/// The views of a list of failures.
pub open spec fn failure_views(fs: Seq<Failure>) -> Seq<FailureView> {
    fs.map_values(|f: Failure| f@)
}

#[derive(Debug)]
pub struct SweepResult {
    pub runs: u64,
    /// The seeds that failed, in order.
    pub failures: Vec<Failure>,
    pub incomplete: u64,
    pub undecided: u64,
    pub ops_completed: u64,
    pub events: u64,
    pub by_signature: KeyTable<u64>,
    /// How long the sweep took, in nanoseconds.
    pub elapsed: Nanos,
}

/// What a sweep came to, as a mathematical value.
#[verifier::ext_equal]
pub struct SweepView {
    pub runs: u64,
    pub failures: Seq<FailureView>,
    pub incomplete: u64,
    pub undecided: u64,
    pub ops_completed: u64,
    pub events: u64,
    pub by_signature: Map<Seq<char>, u64>,
    pub elapsed: Nanos,
}

impl View for SweepResult {
    type V = SweepView;

    open spec fn view(&self) -> SweepView {
        SweepView {
            runs: self.runs,
            failures: failure_views(self.failures@),
            incomplete: self.incomplete,
            undecided: self.undecided,
            ops_completed: self.ops_completed,
            events: self.events,
            by_signature: self.by_signature@,
            elapsed: self.elapsed,
        }
    }
}

/// A failure put in its place by seed.
pub open spec fn filed(fs: Seq<FailureView>, f: FailureView) -> Seq<FailureView>
    decreases fs.len(),
{
    if fs.len() == 0 || fs.last().seed <= f.seed {
        fs.push(f)
    } else {
        filed(fs.drop_last(), f).push(fs.last())
    }
}

/// A table of counts with one more of a kind.
pub open spec fn tallied(m: Map<Seq<char>, u64>, kind: Seq<char>) -> Map<Seq<char>, u64> {
    m.insert(
        kind,
        if m.contains_key(kind) {
            bump(m[kind])
        } else {
            1
        },
    )
}

/// A count with one more, where there is one.
pub open spec fn bump_if(n: u64, b: bool) -> u64 {
    if b {
        bump(n)
    } else {
        n
    }
}

/// The line to print for a run, where there is one.
pub open spec fn run_line(o: RunView, verbose: bool) -> Option<Seq<char>> {
    if verbose {
        Some(o.summary())
    } else if o.failed() {
        Some("FAIL seed "@ + decimal(o.seed as nat) + " ["@ + o.signature() + "]"@)
    } else {
        None
    }
}

impl SweepView {
    /// Nothing run yet.
    pub open spec fn blank() -> SweepView {
        SweepView {
            runs: 0,
            failures: Seq::empty(),
            incomplete: 0,
            undecided: 0,
            ops_completed: 0,
            events: 0,
            by_signature: Map::empty(),
            elapsed: 0,
        }
    }

    /// One more run recorded.
    pub open spec fn recorded(self, o: RunView) -> SweepView {
        SweepView {
            runs: bump(self.runs),
            failures: if o.failed() {
                filed(
                    self.failures,
                    FailureView { seed: o.seed, signature: o.signature(), detail: o.detail() },
                )
            } else {
                self.failures
            },
            incomplete: bump_if(self.incomplete, o.incomplete),
            undecided: bump_if(self.undecided, o.verdict is Unknown),
            ops_completed: plus(self.ops_completed, o.stats.ops_completed),
            events: plus(self.events, o.stats.events),
            by_signature: if o.failed() {
                tallied(self.by_signature, o.signature())
            } else {
                self.by_signature
            },
            ..self
        }
    }

    /// Several runs recorded in turn.
    pub open spec fn recorded_all(self, os: Seq<RunView>) -> SweepView
        decreases os.len(),
    {
        if os.len() == 0 {
            self
        } else {
            self.recorded_all(os.drop_last()).recorded(os.last())
        }
    }

    /// Whether enough failing seeds were found.
    pub open spec fn enough(self, stop_after: usize) -> bool {
        stop_after > 0 && self.failures.len() >= stop_after
    }

    /// What the first `n` seeds of a sweep come to, where it is not over
    /// before.
    pub open spec fn swept(cfg: SweepConfig, n: nat) -> SweepView
        decreases n,
    {
        if n == 0 {
            SweepView::blank()
        } else {
            let before = SweepView::swept(cfg, (n - 1) as nat);
            if before.enough(cfg.stop_after) {
                before
            } else {
                before.recorded(run_of(cfg.nth(n - 1)))
            }
        }
    }

    /// Seeds in order.
    pub open spec fn ordered(self) -> bool {
        forall|i: int, j: int|
            0 <= i < j < self.failures.len() ==> (#[trigger] self.failures[i]).seed <= (
            #[trigger] self.failures[j]).seed
    }
}

// ---- what a sweep says -------------------------------------------------------

/// How many runs failed in each way.
pub open spec fn tally_lines(rows: Seq<(Seq<char>, u64)>) -> Seq<char>
    decreases rows.len(),
{
    if rows.len() == 0 {
        ""@
    } else {
        tally_lines(rows.drop_last()) + "  "@ + pad_left(decimal(rows.last().1 as nat), 4) + "x "@
            + rows.last().0 + "\n"@
    }
}

/// Failures in full.
pub open spec fn failure_lines(fs: Seq<FailureView>) -> Seq<char>
    decreases fs.len(),
{
    if fs.len() == 0 {
        ""@
    } else {
        failure_lines(fs.drop_last()) + "--- seed "@ + decimal(fs.last().seed as nat) + " ["@
            + fs.last().signature + "] ---\n"@ + fs.last().detail + "\n"@
    }
}

/// The seeds of failures.
pub open spec fn seed_texts(fs: Seq<FailureView>) -> Seq<Seq<char>> {
    fs.map_values(|f: FailureView| decimal(f.seed as nat))
}

impl SweepView {
    /// The first lines: what was run.
    pub open spec fn head(self) -> Seq<char> {
        let first = decimal(self.runs as nat) + " runs in "@ + tenths_text(
            seconds(self.elapsed as nat),
        ) + "s ("@ + ones_text(rate(self.runs as nat, self.elapsed as nat)) + " runs/s, "@
            + tenths_text(share(self.events as nat, 1_000_000)) + "M events, "@ + decimal(
            self.ops_completed as nat,
        ) + " ops completed)\n"@;
        let second = if self.incomplete > 0 {
            first + decimal(self.incomplete as nat) + " runs hit the event budget\n"@
        } else {
            first
        };
        if self.undecided > 0 {
            second + decimal(self.undecided as nat)
                + " runs left linearizability undecided (search budget)\n"@
        } else {
            second
        }
    }

    /// The last lines: what failed.
    pub open spec fn failing(self) -> Seq<char> {
        let n = self.failures.len();
        let shown = if n > 10 {
            10
        } else {
            n as int
        };
        let listed = decimal(n) + " FAILING SEEDS:\n"@ + tally_lines(listing(self.by_signature))
            + "\n"@ + failure_lines(self.failures.take(shown));
        let more = if n > 10 {
            listed + "... and "@ + decimal((n - 10) as nat) + " more\n"@
        } else {
            listed
        };
        more + "reproduce with: sim replay --seed <"@ + join(seed_texts(self.failures), "|"@)
            + ">\n"@
    }

    /// The sweep in words.
    pub open spec fn text(self) -> Seq<char> {
        self.head() + if self.failures.len() == 0 {
            "no failures\n"@
        } else {
            self.failing()
        }
    }
}

/// What recording a run asks of whoever drives the sweep.
#[derive(Debug)]
pub struct Recorded {
    /// A line to print.
    pub line: Option<String>,
    /// No further seed is to be started.
    pub stop: bool,
}

impl Default for SweepResult {
    fn default() -> (r: SweepResult)
        ensures
            r@ == SweepView::blank(),
            r.by_signature.wf(),
    {
        let r = SweepResult {
            runs: 0,
            failures: Vec::new(),
            incomplete: 0,
            undecided: 0,
            ops_completed: 0,
            events: 0,
            by_signature: KeyTable::new(),
            elapsed: 0,
        };
        assert(r@ =~= SweepView::blank());
        r
    }
}

impl SweepResult {
    pub fn passed(&self) -> (r: bool)
        ensures
            r == (self@.failures.len() == 0),
    {
        self.failures.is_empty()
    }

    /// Put a failure in its place by seed.
    fn file(&mut self, f: Failure)
        ensures
            final(self)@ == (SweepView {
                failures: filed(old(self)@.failures, f@),
                ..old(self)@
            }),
            final(self).by_signature == old(self).by_signature,
    {
        let ghost before = self@.failures;
        let ghost view = f@;
        let mut p: usize = self.failures.len();
        proof {
            assert(before.take(p as int) =~= before);
            assert(before.skip(p as int) =~= Seq::empty());
            assert(filed(before, view) + Seq::<FailureView>::empty() =~= filed(before, view));
        }
        while p > 0 && self.failures[p - 1].seed > f.seed
            invariant
                p <= self.failures@.len(),
                *self == *old(self),
                f@ == view,
                before == failure_views(self.failures@),
                filed(before, view) == filed(before.take(p as int), view) + before.skip(p as int),
            decreases p,
        {
            proof {
                let t = before.take(p as int);
                assert(t.last() == self.failures@[p - 1]@);
                assert(t.drop_last() =~= before.take(p - 1));
                let u = filed(before.take(p - 1), view);
                assert(u.push(t.last()) + before.skip(p as int) =~= u + before.skip(p - 1));
            }
            p -= 1;
        }
        proof {
            let t = before.take(p as int);
            if p > 0 {
                assert(t.last() == self.failures@[p - 1]@);
            }
            assert(filed(t, view) == t.push(view));
        }
        self.failures.insert(p, f);
        assert(self@.failures =~= before.take(p as int).push(view) + before.skip(p as int));
    }

    /// Record a run.
    pub fn record(&mut self, outcome: &RunOutcome, stop_after: usize, verbose: bool) -> (r: Recorded)
        requires
            old(self).by_signature.wf(),
        ensures
            final(self).by_signature.wf(),
            final(self)@ == old(self)@.recorded(outcome@),
            r.stop == final(self)@.enough(stop_after),
            opt_text(r.line) == run_line(outcome@, verbose),
    {
        let ghost before = self@;
        self.runs = count_up(self.runs);
        self.ops_completed = add_capped(self.ops_completed, outcome.stats.ops_completed);
        self.events = add_capped(self.events, outcome.stats.events);
        if outcome.incomplete {
            self.incomplete = count_up(self.incomplete);
        }
        if let Verdict::Unknown { .. } = &outcome.verdict {
            self.undecided = count_up(self.undecided);
        }
        let mut line = None;
        if outcome.failed() {
            let signature = outcome.signature();
            let seen: u64 = match self.by_signature.get(signature) {
                Some(n) => count_up(*n),
                None => 1,
            };
            self.by_signature.insert(own(signature), seen);
            let mut s = own("FAIL seed ");
            put_num(&mut s, outcome.seed);
            s.append(" [");
            s.append(signature);
            s.append("]");
            line = Some(s);
            self.file(Failure { seed: outcome.seed, signature, detail: outcome.detail() });
        }
        if verbose {
            line = Some(outcome.summary());
        }
        assert(self@ =~= before.recorded(outcome@));
        let n: usize = self.failures.len();
        Recorded { line, stop: stop_after > 0 && n >= stop_after }
    }

    fn put_tally(&self, s: &mut String)
        requires
            self.by_signature.wf(),
        ensures
            final(s)@ == old(s)@ + tally_lines(listing(self@.by_signature)),
    {
        let rows = self.by_signature.rows();
        let ghost all = row_views(rows@);
        let mut t = own("");
        let mut i: usize = 0;
        while i < rows.len()
            invariant
                i <= rows@.len(),
                all == row_views(rows@),
                t@ == tally_lines(all.take(i as int)),
            decreases rows@.len() - i,
        {
            proof {
                assert(all.take(i + 1).drop_last() =~= all.take(i as int));
                assert(all.take(i + 1).last() == (rows@[i as int].0@, rows@[i as int].1));
            }
            t.append("  ");
            t.append(pad_left_str(decimal_str(rows[i].1).as_str(), 4).as_str());
            t.append("x ");
            t.append(rows[i].0.as_str());
            t.append("\n");
            i += 1;
        }
        assert(all.take(i as int) =~= all);
        s.append(t.as_str());
    }

    fn put_failures(&self, s: &mut String, n: usize)
        requires
            n <= self@.failures.len(),
        ensures
            final(s)@ == old(s)@ + failure_lines(self@.failures.take(n as int)),
    {
        let ghost all = self@.failures;
        let mut t = own("");
        let mut i: usize = 0;
        while i < n
            invariant
                i <= n <= self.failures@.len(),
                all == failure_views(self.failures@),
                t@ == failure_lines(all.take(i as int)),
            decreases n - i,
        {
            let f = &self.failures[i];
            proof {
                assert(all.take(i + 1).drop_last() =~= all.take(i as int));
                assert(all.take(i + 1).last() == f@);
            }
            t.append("--- seed ");
            put_num(&mut t, f.seed);
            t.append(" [");
            t.append(f.signature);
            t.append("] ---\n");
            t.append(f.detail.as_str());
            t.append("\n");
            i += 1;
        }
        s.append(t.as_str());
    }

    fn seeds(&self) -> (r: Vec<String>)
        ensures
            texts(r@) == seed_texts(self@.failures),
    {
        let mut out: Vec<String> = Vec::new();
        let mut i: usize = 0;
        while i < self.failures.len()
            invariant
                i <= self.failures@.len(),
                out@.len() == i,
                forall|j: int|
                    0 <= j < i ==> (#[trigger] out@[j])@ == decimal(self.failures@[j].seed as nat),
            decreases self.failures@.len() - i,
        {
            out.push(decimal_str(self.failures[i].seed));
            i += 1;
        }
        assert(texts(out@) =~= seed_texts(self@.failures));
        out
    }

    fn head(&self) -> (r: String)
        ensures
            r@ == self@.head(),
    {
        let mut s = decimal_str(self.runs);
        s.append(" runs in ");
        put_tenths(&mut s, seconds_of(self.elapsed));
        s.append("s (");
        put_ones(&mut s, rate_of(self.runs, self.elapsed));
        s.append(" runs/s, ");
        put_tenths(&mut s, share_of(self.events, 1_000_000));
        s.append("M events, ");
        put_num(&mut s, self.ops_completed);
        s.append(" ops completed)\n");
        if self.incomplete > 0 {
            put_num(&mut s, self.incomplete);
            s.append(" runs hit the event budget\n");
        }
        if self.undecided > 0 {
            put_num(&mut s, self.undecided);
            s.append(" runs left linearizability undecided (search budget)\n");
        }
        s
    }

    pub fn render(&self) -> (r: String)
        requires
            self.by_signature.wf(),
        ensures
            r@ == self@.text(),
    {
        let mut s = self.head();
        let n: usize = self.failures.len();
        if n == 0 {
            s.append("no failures\n");
            return s;
        }
        let mut t = decimal_str(n as u64);
        t.append(" FAILING SEEDS:\n");
        self.put_tally(&mut t);
        t.append("\n");
        let shown: usize = if n > 10 {
            10
        } else {
            n
        };
        self.put_failures(&mut t, shown);
        if n > 10 {
            t.append("... and ");
            put_num(&mut t, (n - 10) as u64);
            t.append(" more\n");
        }
        t.append("reproduce with: sim replay --seed <");
        t.append(join_str(&self.seeds(), "|").as_str());
        t.append(">\n");
        assert(t@ == self@.failing());
        s.append(t.as_str());
        s
    }
}

/// Run the configured range of seeds, one after another.
pub fn sweep(cfg: SweepConfig) -> (r: SweepResult)
    requires
        cfg.sound(),
    ensures
        r@ == SweepView::swept(cfg, cfg.count as nat),
        r.by_signature.wf(),
{
    let mut result = SweepResult::default();
    let mut i: u64 = 0;
    let mut stop = false;
    while i < cfg.count && !stop
        invariant
            cfg.sound(),
            i <= cfg.count,
            result.by_signature.wf(),
            stop == result@.enough(cfg.stop_after),
            result@ == SweepView::swept(cfg, i as nat),
        decreases cfg.count - i,
    {
        let outcome = cfg.run_nth(i);
        stop = result.record(&outcome, cfg.stop_after, cfg.verbose).stop;
        i += 1;
    }
    proof {
        lemma_stopped(cfg, i as nat, cfg.count as nat);
    }
    result
}

/// Once enough was found, nothing more is recorded.
proof fn lemma_stopped(cfg: SweepConfig, i: nat, n: nat)
    requires
        i <= n,
        i == n || SweepView::swept(cfg, i).enough(cfg.stop_after),
    ensures
        SweepView::swept(cfg, n) == SweepView::swept(cfg, i),
    decreases n - i,
{
    if i < n {
        lemma_stopped(cfg, i, (n - 1) as nat);
    }
}

// ---- laws --------------------------------------------------------------------

/// Filing keeps failures in order of their seeds.
proof fn lemma_filed(fs: Seq<FailureView>, f: FailureView)
    ensures
        filed(fs, f).len() == fs.len() + 1,
        forall|i: int|
            0 <= i < filed(fs, f).len() ==> #[trigger] filed(fs, f)[i] == f || fs.contains(
                filed(fs, f)[i],
            ),
    decreases fs.len(),
{
    if fs.len() > 0 && fs.last().seed > f.seed {
        let d = fs.drop_last();
        lemma_filed(d, f);
        assert forall|i: int| 0 <= i < filed(fs, f).len() implies #[trigger] filed(fs, f)[i] == f
            || fs.contains(filed(fs, f)[i]) by {
            if i < filed(d, f).len() {
                assert(filed(fs, f)[i] == filed(d, f)[i]);
                if filed(d, f)[i] != f {
                    let j = choose|j: int| 0 <= j < d.len() && d[j] == filed(d, f)[i];
                    assert(fs[j] == filed(fs, f)[i]);
                }
            } else {
                assert(fs[fs.len() - 1] == filed(fs, f)[i]);
            }
        }
    } else {
        assert forall|i: int| 0 <= i < filed(fs, f).len() implies #[trigger] filed(fs, f)[i] == f
            || fs.contains(filed(fs, f)[i]) by {
            if i < fs.len() {
                assert(fs[i] == filed(fs, f)[i]);
            }
        }
    }
}

/// Two failures of different seeds are filed alike in either order.
proof fn lemma_filed_commutes(fs: Seq<FailureView>, f: FailureView, g: FailureView)
    requires
        f.seed < g.seed,
    ensures
        filed(filed(fs, f), g) == filed(filed(fs, g), f),
    decreases fs.len(),
{
    if fs.len() == 0 {
        let (a, b) = (filed(fs, f), filed(fs, g));
        assert(a.last() == f && b.last() == g);
        assert(b.drop_last() =~= fs);
        assert(filed(a, g) =~= filed(b, f));
    } else {
        let d = fs.drop_last();
        let last = fs.last();
        lemma_filed_commutes(d, f, g);
        if last.seed <= f.seed {
            assert(filed(fs, g).drop_last() =~= fs);
            assert(filed(filed(fs, f), g) =~= filed(filed(fs, g), f));
        } else if last.seed <= g.seed {
            let a = filed(fs, f);
            assert(a.last() == last && a.drop_last() =~= filed(d, f));
            assert(filed(fs, g).drop_last() =~= fs);
        } else {
            let (a, b) = (filed(fs, f), filed(fs, g));
            assert(a.last() == last && a.drop_last() =~= filed(d, f));
            assert(b.last() == last && b.drop_last() =~= filed(d, g));
        }
    }
}

proof fn lemma_tallied_commutes(m: Map<Seq<char>, u64>, a: Seq<char>, b: Seq<char>)
    ensures
        tallied(tallied(m, a), b) == tallied(tallied(m, b), a),
{
    assert(tallied(tallied(m, a), b) =~= tallied(tallied(m, b), a));
}

/// It does not matter which of two runs is recorded first.
pub proof fn law_recording_commutes(r: SweepView, a: RunView, b: RunView)
    requires
        a.seed != b.seed,
    ensures
        r.recorded(a).recorded(b) == r.recorded(b).recorded(a),
{
    let f = FailureView { seed: a.seed, signature: a.signature(), detail: a.detail() };
    let g = FailureView { seed: b.seed, signature: b.signature(), detail: b.detail() };
    if a.seed < b.seed {
        lemma_filed_commutes(r.failures, f, g);
    } else {
        lemma_filed_commutes(r.failures, g, f);
    }
    lemma_tallied_commutes(r.by_signature, a.signature(), b.signature());
    assert(r.recorded(a).recorded(b) =~= r.recorded(b).recorded(a));
}

/// Whether no two runs are of the same seed.
pub open spec fn distinct_seeds(os: Seq<RunView>) -> bool {
    forall|i: int, j: int|
        0 <= i < j < os.len() ==> (#[trigger] os[i]).seed != (#[trigger] os[j]).seed
}

proof fn lemma_record_last(r: SweepView, os: Seq<RunView>, k: int)
    requires
        0 <= k < os.len(),
        distinct_seeds(os),
    ensures
        r.recorded_all(os) == r.recorded_all(os.remove(k)).recorded(os[k]),
    decreases os.len(),
{
    let last = os.last();
    let d = os.drop_last();
    if k == os.len() - 1 {
        assert(os.remove(k) =~= d);
    } else {
        assert(distinct_seeds(d));
        lemma_record_last(r, d, k);
        let e = os.remove(k);
        assert(e.drop_last() =~= d.remove(k));
        assert(e.last() == last);
        assert(d[k] == os[k]);
        assert(os[k].seed != os[os.len() - 1].seed);
        law_recording_commutes(r.recorded_all(d.remove(k)), os[k], last);
    }
}

/// A sweep comes to the same whatever order its runs finish in.
pub proof fn law_order_does_not_matter(r: SweepView, a: Seq<RunView>, b: Seq<RunView>)
    requires
        distinct_seeds(a),
        a.to_multiset() == b.to_multiset(),
    ensures
        r.recorded_all(a) == r.recorded_all(b),
    decreases a.len(),
{
    broadcast use vstd::seq_lib::group_to_multiset_ensures;

    assert(a.len() == a.to_multiset().len() && b.len() == b.to_multiset().len());
    if a.len() > 0 {
        let x = b.last();
        assert(b.to_multiset().count(x) > 0) by {
            assert(b.contains(x)) by {
                assert(b[b.len() - 1] == x);
            }
        }
        assert(a.contains(x));
        let k = choose|k: int| 0 <= k < a.len() && a[k] == x;
        lemma_record_last(r, a, k);
        let (c, d) = (a.remove(k), b.drop_last());
        assert(d =~= b.remove(b.len() - 1));
        assert(c.to_multiset() =~= d.to_multiset());
        assert(distinct_seeds(c));
        law_order_does_not_matter(r, c, d);
    }
}

/// Failing seeds are listed in order.
pub proof fn law_failures_are_ordered(r: SweepView, o: RunView)
    requires
        r.ordered(),
    ensures
        r.recorded(o).ordered(),
{
    lemma_filed_ordered(
        r.failures,
        FailureView { seed: o.seed, signature: o.signature(), detail: o.detail() },
    );
}

proof fn lemma_filed_ordered(fs: Seq<FailureView>, f: FailureView)
    requires
        forall|i: int, j: int|
            0 <= i < j < fs.len() ==> (#[trigger] fs[i]).seed <= (#[trigger] fs[j]).seed,
    ensures
        forall|i: int, j: int|
            0 <= i < j < filed(fs, f).len() ==> (#[trigger] filed(fs, f)[i]).seed <= (
            #[trigger] filed(fs, f)[j]).seed,
    decreases fs.len(),
{
    let r = filed(fs, f);
    if fs.len() == 0 {
    } else if fs.last().seed <= f.seed {
        assert forall|i: int, j: int| 0 <= i < j < r.len() implies (#[trigger] r[i]).seed <= (
        #[trigger] r[j]).seed by {
            if j == fs.len() && i < fs.len() - 1 {
                assert(fs[i].seed <= fs[fs.len() - 1].seed);
            }
        }
    } else {
        let d = fs.drop_last();
        lemma_filed_ordered(d, f);
        lemma_filed(d, f);
        let q = filed(d, f);
        assert forall|i: int, j: int| 0 <= i < j < r.len() implies (#[trigger] r[i]).seed <= (
        #[trigger] r[j]).seed by {
            if j < q.len() {
                assert(q[i].seed <= q[j].seed);
            } else if q[i] != f {
                let k = choose|k: int| 0 <= k < d.len() && d[k] == q[i];
                assert(fs[k].seed <= fs[fs.len() - 1].seed);
            }
        }
    }
}

} // verus!
