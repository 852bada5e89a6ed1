//! Verifying that the simulator is actually deterministic.
//!
//! Everything else in this project is built on one assumption: a seed names a
//! run. If that assumption quietly breaks -- a `HashMap` iteration order leaks
//! into control flow, a pointer address gets hashed, the wall clock sneaks in --
//! then shrinking chases ghosts and every recorded repro is worthless. So the
//! assumption is tested, not trusted.
//!
//! ## The rules a deterministic simulation has to follow
//!
//! * All randomness comes from [`crate::simcore::rng::Rng`], seeded from the run
//!   seed.
//! * All time comes from [`crate::simcore::scheduler::Scheduler`], never from
//!   the OS.
//! * No iteration over a hashed collection may affect behaviour.
//! * No addresses, no thread ids, no environment.

use crate::simcore::trace::{record_views, Fingerprint, Record, RecordView};
use crate::text::{decimal, own, put_num, same_str};
use vstd::prelude::*;

verus! {

/// Two runs of the same seed disagreed.
#[derive(Clone, Copy, Debug, PartialEq, Eq)]
pub struct Divergence {
    pub run: usize,
    pub expected: Fingerprint,
    pub actual: Fingerprint,
}

impl Divergence {
    /// The divergence in words.
    pub open spec fn words(self) -> Seq<char> {
        "non-determinism: run "@ + decimal(self.run as nat) + " produced fingerprint "@
            + self.actual.label() + " but run 0 produced "@ + self.expected.label()
    }

    /// The divergence in words.
    pub fn text(&self) -> (r: String)
        ensures
            r@ == self.words(),
    {
        let mut s = own("non-determinism: run ");
        put_num(&mut s, self.run as u64);
        s.append(" produced fingerprint ");
        s.append(self.actual.text().as_str());
        s.append(" but run 0 produced ");
        s.append(self.expected.text().as_str());
        s
    }
}

/// What a list of fingerprints of the same scenario says, from run `i` on.
pub open spec fn judged(outs: Seq<Fingerprint>, i: int) -> Result<Fingerprint, Divergence>
    decreases outs.len() - i,
{
    if i >= outs.len() {
        Ok(outs[0])
    } else if outs[i] != outs[0] {
        Err(Divergence { run: i as usize, expected: outs[0], actual: outs[i] })
    } else {
        judged(outs, i + 1)
    }
}

/// Whether the fingerprints of several runs agree.
pub fn judge(outs: &Vec<Fingerprint>) -> (r: Result<Fingerprint, Divergence>)
    requires
        outs@.len() >= 1,
    ensures
        r == judged(outs@, 1),
{
    let mut i: usize = 1;
    while i < outs.len()
        invariant
            1 <= i <= outs@.len(),
            judged(outs@, 1) == judged(outs@, i as int),
        decreases outs@.len() - i,
    {
        if outs[i] != outs[0] {
            return Err(Divergence { run: i, expected: outs[0], actual: outs[i] });
        }
        i += 1;
    }
    Ok(outs[0])
}

/// Run the same scenario `runs` times and require identical fingerprints.
///
/// The closure receives the run index purely so it can log; it must not use it
/// to change behaviour.
pub fn verify<F>(runs: usize, run: F) -> (r: Result<Fingerprint, Divergence>) where
    F: FnMut(usize) -> Fingerprint,

    requires
        runs >= 1,
        forall|i: usize| i < runs ==> #[trigger] call_requires(run, (i,)),
    ensures
        match r {
            Ok(f) => gave(run, 0, f) && forall|i: usize| i < runs ==> #[trigger] gave(run, i, f),
            Err(d) => {
                &&& 1 <= d.run < runs
                &&& d.actual != d.expected
                &&& gave(run, 0, d.expected)
                &&& gave(run, d.run, d.actual)
                &&& forall|i: usize| i < d.run ==> #[trigger] gave(run, i, d.expected)
            },
        },
{
    let mut scenario = run;
    let first = scenario(0);
    assert(gave(run, 0, first));
    let mut i: usize = 1;
    while i < runs
        invariant
            1 <= i,
            i <= runs,
            scenario == run,
            forall|i: usize| i < runs ==> #[trigger] call_requires(run, (i,)),
            forall|j: usize| j < i ==> #[trigger] gave(run, j, first),
        decreases runs - i,
    {
        let f = scenario(i);
        assert(gave(run, i, f));
        if f != first {
            return Err(Divergence { run: i, expected: first, actual: f });
        }
        i += 1;
    }
    Ok(first)
}

/// Whether a run of a scenario gave a fingerprint.
pub open spec fn gave<F: FnMut(usize) -> Fingerprint>(run: F, i: usize, out: Fingerprint) -> bool {
    call_ensures(run, (i,), out)
}

/// Runs that agree are reported with their fingerprint; otherwise the first
/// run that differs from run 0 is named.
pub proof fn law_judged(outs: Seq<Fingerprint>)
    requires
        1 <= outs.len() <= usize::MAX,
    ensures
        match judged(outs, 1) {
            Ok(f) => forall|i: int| 0 <= i < outs.len() ==> #[trigger] outs[i] == f,
            Err(d) => 1 <= d.run < outs.len() && outs[d.run as int] == d.actual && outs[0]
                == d.expected && d.actual != d.expected && forall|i: int|
                0 <= i < d.run ==> #[trigger] outs[i] == outs[0],
        },
{
    lemma_judged(outs, 1);
}

proof fn lemma_judged(outs: Seq<Fingerprint>, i: int)
    requires
        1 <= i <= outs.len() <= usize::MAX,
        forall|j: int| 0 <= j < i ==> #[trigger] outs[j] == outs[0],
    ensures
        match judged(outs, i) {
            Ok(f) => forall|j: int| 0 <= j < outs.len() ==> #[trigger] outs[j] == f,
            Err(d) => i <= d.run < outs.len() && outs[d.run as int] == d.actual && outs[0]
                == d.expected && d.actual != d.expected && forall|j: int|
                0 <= j < d.run ==> #[trigger] outs[j] == outs[0],
        },
    decreases outs.len() - i,
{
    if i < outs.len() && outs[i] == outs[0] {
        lemma_judged(outs, i + 1);
    }
}

/// The first place from `i` on where two lists of lines differ.
pub open spec fn divergence_from(a: Seq<RecordView>, b: Seq<RecordView>, i: int) -> Option<int>
    decreases a.len() - i,
{
    if i >= a.len() || i >= b.len() {
        if a.len() == b.len() {
            None
        } else {
            Some(i)
        }
    } else if a[i].line() != b[i].line() {
        Some(i)
    } else {
        divergence_from(a, b, i + 1)
    }
}

/// Index of the first trace record where two runs diverge, for pinpointing
/// *where* determinism broke rather than merely that it did.
pub fn first_divergence(a: &[Record], b: &[Record]) -> (r: Option<usize>)
    ensures
        match r {
            Some(i) => divergence_from(record_views(a@), record_views(b@), 0) == Some(i as int)
                && i <= a@.len() && i <= b@.len(),
            None => divergence_from(record_views(a@), record_views(b@), 0) is None,
        },
{
    let ghost (va, vb) = (record_views(a@), record_views(b@));
    let mut i: usize = 0;
    while i < a.len() && i < b.len()
        invariant
            i <= a@.len(),
            i <= b@.len(),
            va == record_views(a@),
            vb == record_views(b@),
            divergence_from(va, vb, 0) == divergence_from(va, vb, i as int),
        decreases a@.len() - i,
    {
        assert(va[i as int] == a@[i as int]@ && vb[i as int] == b@[i as int]@);
        if !same_str(a[i].render().as_str(), b[i].render().as_str()) {
            return Some(i);
        }
        i += 1;
    }
    if a.len() == b.len() {
        None
    } else {
        Some(i)
    }
}

/// A record's line, or a mark where the log has ended.
pub open spec fn line_or_end(rs: Seq<RecordView>, j: int) -> Seq<char> {
    if j < rs.len() {
        rs[j].line()
    } else {
        "<end>"@
    }
}

/// Both lines at places `from..to`.
pub open spec fn side_by_side(a: Seq<RecordView>, b: Seq<RecordView>, from: int, to: int) -> Seq<
    char,
>
    decreases to - from,
{
    if to <= from {
        ""@
    } else {
        let j = to - 1;
        side_by_side(a, b, from, j) + "  A["@ + decimal(j as nat) + "] "@ + line_or_end(a, j)
            + "\n"@ + "  B["@ + decimal(j as nat) + "] "@ + line_or_end(b, j) + "\n"@
    }
}

fn line_text(rs: &[Record], j: usize) -> (r: String)
    ensures
        r@ == line_or_end(record_views(rs@), j as int),
{
    if j < rs.len() {
        rs[j].render()
    } else {
        own("<end>")
    }
}

/// A side-by-side excerpt around a divergence point.
pub fn divergence_report(a: &[Record], b: &[Record], context: usize) -> (r: String)
    ensures
        r@ == match divergence_from(record_views(a@), record_views(b@), 0) {
            None => "traces are identical\n"@,
            Some(i) => "first divergence at record "@ + decimal(i as nat) + ":\n"@ + side_by_side(
                record_views(a@),
                record_views(b@),
                if i > context {
                    i - context
                } else {
                    0
                },
                i + 1,
            ),
        },
{
    let i: usize = match first_divergence(a, b) {
        None => return own("traces are identical\n"),
        Some(i) => i,
    };
    let mut out = own("first divergence at record ");
    put_num(&mut out, i as u64);
    out.append(":\n");
    let start: usize = if i > context {
        i - context
    } else {
        0
    };
    let mut body = own("");
    let mut j: usize = start;
    let mut more = true;
    while more
        invariant
            start <= i,
            start <= j,
            more ==> j <= i,
            !more ==> j == i,
            body@ == side_by_side(
                record_views(a@),
                record_views(b@),
                start as int,
                if more {
                    j as int
                } else {
                    i + 1
                },
            ),
        decreases
                i - j + (if more {
                    1int
                } else {
                    0
                }),
    {
        body.append("  A[");
        put_num(&mut body, j as u64);
        body.append("] ");
        body.append(line_text(a, j).as_str());
        body.append("\n");
        body.append("  B[");
        put_num(&mut body, j as u64);
        body.append("] ");
        body.append(line_text(b, j).as_str());
        body.append("\n");
        if j == i {
            more = false;
        } else {
            j += 1;
        }
    }
    out.append(body.as_str());
    out
}

} // verus!
