//! What went wrong in a run.

use crate::figures::{put_thousandths, share, share_of, thousandths_text};
use crate::simcore::{Nanos, NodeId, MILLIS};
use crate::text::{own, same_str};
use vstd::prelude::*;

verus! {

/// Something that must never happen, having happened.
#[derive(Debug, PartialEq, Eq)]
pub struct Violation {
    /// Short stable name, used to tell failures apart when shrinking.
    pub kind: &'static str,
    pub time: Nanos,
    pub node: Option<NodeId>,
    pub detail: String,
}

/// A violation, its strings as sequences of characters.
pub struct ViolationView {
    pub kind: Seq<char>,
    pub time: Nanos,
    pub node: Option<NodeId>,
    pub detail: Seq<char>,
}

impl View for Violation {
    type V = ViolationView;

    open spec fn view(&self) -> ViolationView {
        ViolationView {
            kind: self.kind@,
            time: self.time,
            node: self.node,
            detail: self.detail@,
        }
    }
}

impl Clone for Violation {
    fn clone(&self) -> (r: Violation)
        ensures
            r@ == self@,
            r.kind == self.kind,
    {
        Violation {
            kind: self.kind,
            time: self.time,
            node: self.node,
            detail: self.detail.clone(),
        }
    }
}

/// The views of a list of violations.
pub open spec fn violation_views(vs: Seq<Violation>) -> Seq<ViolationView> {
    vs.map_values(|v: Violation| v@)
}

/// A time in milliseconds, to three decimals.
pub open spec fn millis_text(time: Nanos) -> Seq<char> {
    thousandths_text(share(time as nat, MILLIS as nat))
}

impl ViolationView {
    /// The violation in one line.
    pub open spec fn line(self) -> Seq<char> {
        let who = match self.node {
            Some(n) => "ms "@ + n.label() + "] "@,
            None => "ms] "@,
        };
        "["@ + millis_text(self.time) + who + self.kind + ": "@ + self.detail
    }
}

impl Violation {
    pub fn new(kind: &'static str, time: Nanos, node: Option<NodeId>, detail: String) -> (r: Violation)
        ensures
            r.kind == kind,
            r@ == (ViolationView { kind: kind@, time, node, detail: detail@ }),
    {
        Violation { kind, time, node, detail }
    }

    /// The violation in one line.
    pub fn text(&self) -> (r: String)
        ensures
            r@ == self@.line(),
    {
        let mut s = own("[");
        put_thousandths(&mut s, share_of(self.time, MILLIS));
        let who = match self.node {
            Some(n) => {
                let mut t = own("ms ");
                t.append(n.text().as_str());
                t.append("] ");
                t
            },
            None => own("ms] "),
        };
        s.append(who.as_str());
        s.append(self.kind);
        s.append(": ");
        s.append(self.detail.as_str());
        s
    }
}

/// How many violations of a kind there are.
pub open spec fn count_kind(vs: Seq<ViolationView>, kind: Seq<char>) -> nat
    decreases vs.len(),
{
    if vs.len() == 0 {
        0
    } else {
        count_kind(vs.drop_last(), kind) + (if vs.last().kind == kind {
            1nat
        } else {
            0
        })
    }
}

/// A report with one more violation, unless it has three of that kind.
pub open spec fn reported(vs: Seq<ViolationView>, v: ViolationView) -> Seq<ViolationView> {
    if count_kind(vs, v.kind) < 3 {
        vs.push(v)
    } else {
        vs
    }
}

/// A report with a list of further violations.
pub open spec fn reported_all(vs: Seq<ViolationView>, more: Seq<ViolationView>) -> Seq<ViolationView>
    decreases more.len(),
{
    if more.len() == 0 {
        vs
    } else {
        reported(reported_all(vs, more.drop_last()), more.last())
    }
}

/// Everything in a report, one line each.
pub open spec fn violation_lines(vs: Seq<ViolationView>) -> Seq<char>
    decreases vs.len(),
{
    if vs.len() == 0 {
        ""@
    } else {
        violation_lines(vs.drop_last()) + vs.last().line() + "\n"@
    }
}

/// Everything wrong with one run, in the order it was noticed.
#[derive(Debug)]
pub struct Report {
    violations: Vec<Violation>,
}

impl View for Report {
    type V = Seq<ViolationView>;

    closed spec fn view(&self) -> Seq<ViolationView> {
        violation_views(self.violations@)
    }
}

impl Default for Report {
    fn default() -> (r: Report)
        ensures
            r@ == Seq::<ViolationView>::empty(),
    {
        Report::new()
    }
}

impl Clone for Report {
    fn clone(&self) -> (r: Report)
        ensures
            r@ == self@,
    {
        let mut violations: Vec<Violation> = Vec::new();
        let mut i: usize = 0;
        while i < self.violations.len()
            invariant
                i <= self.violations@.len(),
                violations@.len() == i,
                forall|j: int| 0 <= j < i ==> (#[trigger] violations@[j])@ == self.violations@[j]@,
            decreases self.violations@.len() - i,
        {
            violations.push(self.violations[i].clone());
            i += 1;
        }
        let r = Report { violations };
        assert(r@ =~= self@);
        r
    }
}

impl Report {
    pub fn new() -> (r: Report)
        ensures
            r@ == Seq::<ViolationView>::empty(),
    {
        let r = Report { violations: Vec::new() };
        assert(r@ =~= Seq::<ViolationView>::empty());
        r
    }

    fn count(&self, kind: &str) -> (r: usize)
        ensures
            r == count_kind(self@, kind@),
    {
        let mut count: usize = 0;
        let mut i: usize = 0;
        while i < self.violations.len()
            invariant
                i <= self.violations@.len(),
                count <= i,
                count == count_kind(self@.take(i as int), kind@),
            decreases self.violations@.len() - i,
        {
            proof {
                let t = self@.take(i + 1);
                assert(t.drop_last() =~= self@.take(i as int));
                assert(t.last() == self.violations@[i as int]@);
            }
            if same_str(self.violations[i].kind, kind) {
                count += 1;
            }
            i += 1;
        }
        assert(self@.take(i as int) =~= self@);
        count
    }

    /// Note a violation. One broken invariant usually trips several checks on
    /// every subsequent event; keeping the first of each kind keeps the report
    /// readable without hiding a genuinely different second failure.
    pub fn add(&mut self, v: Violation)
        ensures
            final(self)@ == reported(old(self)@, v@),
    {
        if self.count(v.kind) < 3 {
            let ghost x = v@;
            self.violations.push(v);
            assert(self@ =~= old(self)@.push(x));
        }
    }

    /// Note several violations.
    pub fn extend(&mut self, vs: Vec<Violation>)
        ensures
            final(self)@ == reported_all(old(self)@, violation_views(vs@)),
    {
        let ghost all = violation_views(vs@);
        let mut i: usize = 0;
        while i < vs.len()
            invariant
                i <= vs@.len(),
                all == violation_views(vs@),
                self@ == reported_all(old(self)@, all.take(i as int)),
            decreases vs@.len() - i,
        {
            proof {
                let t = all.take(i + 1);
                assert(t.drop_last() =~= all.take(i as int));
                assert(t.last() == vs@[i as int]@);
            }
            self.add(vs[i].clone());
            i += 1;
        }
        assert(all.take(i as int) =~= all);
    }

    pub fn is_empty(&self) -> (r: bool)
        ensures
            r == (self@.len() == 0),
    {
        self.violations.is_empty()
    }

    pub fn violations(&self) -> (r: &[Violation])
        ensures
            violation_views(r@) == self@,
    {
        self.violations.as_slice()
    }

    /// The name of the first failure, used as the identity of a bug when
    /// shrinking: a smaller input only counts if it still fails this way.
    pub fn signature(&self) -> (r: Option<&'static str>)
        ensures
            match r {
                Some(k) => self@.len() > 0 && self@[0].kind == k@,
                None => self@.len() == 0,
            },
    {
        if self.violations.len() > 0 {
            assert(self@[0] == self.violations@[0]@);
            Some(self.violations[0].kind)
        } else {
            None
        }
    }

    pub fn render(&self) -> (r: String)
        ensures
            r@ == violation_lines(self@),
    {
        let mut s = own("");
        let mut i: usize = 0;
        while i < self.violations.len()
            invariant
                i <= self.violations@.len(),
                s@ == violation_lines(self@.take(i as int)),
            decreases self.violations@.len() - i,
        {
            s.append(self.violations[i].text().as_str());
            s.append("\n");
            proof {
                let t = self@.take(i + 1);
                assert(t.drop_last() =~= self@.take(i as int));
                assert(t.last() == self.violations@[i as int]@);
            }
            i += 1;
        }
        assert(self@.take(i as int) =~= self@);
        s
    }
}

proof fn lemma_count_push(vs: Seq<ViolationView>, v: ViolationView, kind: Seq<char>)
    ensures
        count_kind(vs.push(v), kind) == count_kind(vs, kind) + (if v.kind == kind {
            1nat
        } else {
            0
        }),
{
    assert(vs.push(v).drop_last() =~= vs);
}

/// A report never holds more than three violations of a kind, never loses one,
/// and keeps the first failure it saw as its signature.
pub proof fn law_report_is_bounded(vs: Seq<ViolationView>, v: ViolationView, kind: Seq<char>)
    requires
        count_kind(vs, kind) <= 3,
    ensures
        count_kind(reported(vs, v), kind) <= 3,
        reported(vs, v).len() >= vs.len(),
        reported(vs, v).take(vs.len() as int) == vs,
        vs.len() > 0 ==> reported(vs, v)[0] == vs[0],
        vs.len() == 0 ==> reported(vs, v) == seq![v],
{
    lemma_count_push(vs, v, kind);
    assert(reported(vs, v).take(vs.len() as int) =~= vs);
    if vs.len() == 0 {
        assert(reported(vs, v) =~= seq![v]);
    }
}

} // verus!
