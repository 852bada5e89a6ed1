//! Client operations as observed from outside, and the register they act on.

use crate::kvstore::log::{Op, OpView};
use crate::kvstore::machine::{lookup, run_op, Outcome, OutcomeView};
use crate::simcore::Nanos;
use crate::text::{copy_opt, decimal, opt_text, own, put_num, quoted_opt, quoted_opt_str, same_opt};
use vstd::prelude::*;

verus! {

/// One client operation as observed from outside.
#[derive(Debug)]
pub struct Operation {
    pub id: u64,
    pub client: u32,
    pub op: Op,
    /// When the client sent the first attempt.
    pub invoked: Nanos,
    /// When the client learned the answer. `None` if it never did.
    pub completed: Option<Nanos>,
    /// The definite answer, if there was one.
    pub outcome: Option<Outcome>,
}

/// An operation, its strings as sequences of characters.
pub struct OperationView {
    pub id: u64,
    pub client: u32,
    pub op: OpView,
    pub invoked: Nanos,
    pub completed: Option<Nanos>,
    pub outcome: Option<OutcomeView>,
}

/// The view of an optional outcome.
pub open spec fn outcome_view(o: Option<Outcome>) -> Option<OutcomeView> {
    match o {
        Some(x) => Some(x@),
        None => None,
    }
}

impl View for Operation {
    type V = OperationView;

    open spec fn view(&self) -> OperationView {
        OperationView {
            id: self.id,
            client: self.client,
            op: self.op@,
            invoked: self.invoked,
            completed: self.completed,
            outcome: outcome_view(self.outcome),
        }
    }
}

/// The views of a list of operations.
pub open spec fn operation_views(ops: Seq<Operation>) -> Seq<OperationView> {
    ops.map_values(|o: Operation| o@)
}

impl Clone for Operation {
    fn clone(&self) -> (r: Operation)
        ensures
            r@ == self@,
    {
        Operation {
            id: self.id,
            client: self.client,
            op: self.op.clone(),
            invoked: self.invoked,
            completed: self.completed,
            outcome: match &self.outcome {
                Some(o) => Some(o.clone()),
                None => None,
            },
        }
    }
}

/// How an outcome is shown.
pub open spec fn outcome_words(o: OutcomeView) -> Seq<char> {
    match o {
        OutcomeView::Value(v) => "Value("@ + quoted_opt(v) + ")"@,
        OutcomeView::Written => "Written"@,
        OutcomeView::Cas(ok) => if ok {
            "Cas(true)"@
        } else {
            "Cas(false)"@
        },
        OutcomeView::NotLeader(n) => match n {
            Some(id) => "NotLeader(Some(NodeId("@ + decimal(id.0 as nat) + ")))"@,
            None => "NotLeader(None)"@,
        },
        OutcomeView::Dropped => "Dropped"@,
    }
}

/// Show an outcome.
pub fn outcome_text(o: &Outcome) -> (r: String)
    ensures
        r@ == outcome_words(o@),
{
    match o {
        Outcome::Value(v) => {
            let mut s = own("Value(");
            s.append(quoted_opt_str(v).as_str());
            s.append(")");
            s
        },
        Outcome::Written => own("Written"),
        Outcome::Cas(ok) => if *ok {
            own("Cas(true)")
        } else {
            own("Cas(false)")
        },
        Outcome::NotLeader(n) => match n {
            Some(id) => {
                let mut s = own("NotLeader(Some(NodeId(");
                put_num(&mut s, id.0 as u64);
                s.append(")))");
                s
            },
            None => own("NotLeader(None)"),
        },
        Outcome::Dropped => own("Dropped"),
    }
}

/// How an operation is shown, without its answer.
pub open spec fn op_words(op: OpView) -> Seq<char> {
    match op {
        OpView::Noop => "noop"@,
        OpView::Get { key } => "get("@ + key + ")"@,
        OpView::Put { key, value } => "put("@ + key + ", "@ + value + ")"@,
        OpView::Delete { key } => "del("@ + key + ")"@,
        OpView::Cas { key, expect, value } => "cas("@ + key + ", "@ + quoted_opt(expect) + " -> "@
            + value + ")"@,
    }
}

/// Show an operation, without its answer.
pub fn op_text(op: &Op) -> (r: String)
    ensures
        r@ == op_words(op@),
{
    match op {
        Op::Noop => own("noop"),
        Op::Get { key } => {
            let mut s = own("get(");
            s.append(key.as_str());
            s.append(")");
            s
        },
        Op::Put { key, value } => {
            let mut s = own("put(");
            s.append(key.as_str());
            s.append(", ");
            s.append(value.as_str());
            s.append(")");
            s
        },
        Op::Delete { key } => {
            let mut s = own("del(");
            s.append(key.as_str());
            s.append(")");
            s
        },
        Op::Cas { key, expect, value } => {
            let mut s = own("cas(");
            s.append(key.as_str());
            s.append(", ");
            s.append(quoted_opt_str(expect).as_str());
            s.append(" -> ");
            s.append(value.as_str());
            s.append(")");
            s
        },
    }
}

impl OperationView {
    /// When the operation was over: at the end of time, where no answer came.
    pub open spec fn end(self) -> u64 {
        match self.completed {
            Some(t) => t,
            None => u64::MAX,
        }
    }

    /// Whether the operation was answered at the instant it was invoked.
    pub open spec fn instant(self) -> bool {
        self.end() == self.invoked
    }

    /// The first moment at which the operation can have taken effect. Every
    /// instant `t` has two moments: `2 * t`, for operations that lasted no longer
    /// than that, and `2 * t + 1`, for those that began then and went on.
    pub open spec fn opens(self) -> int {
        if self.instant() {
            2 * self.invoked
        } else {
            2 * self.invoked + 1
        }
    }

    /// The first moment at which the operation was over. One that ended at an
    /// instant was over before whatever began then.
    pub open spec fn closes(self) -> int {
        if self.instant() {
            2 * self.invoked + 1
        } else {
            2 * self.end()
        }
    }

    /// Whether the operation was over when another began. Two operations that
    /// lasted no longer than the same instant may have come in either order.
    pub open spec fn precedes(self, other: OperationView) -> bool {
        self.end() < other.invoked || (self.end() == other.invoked && !(self.instant()
            && other.instant()))
    }

    /// One line about the operation.
    pub open spec fn line(self) -> Seq<char> {
        let ret = match (self.outcome, self.completed) {
            (Some(o), Some(t)) => "=> "@ + outcome_words(o) + " at "@ + decimal(t as nat),
            _ => "=> <no answer>"@,
        };
        "c"@ + decimal(self.client as nat) + " #"@ + decimal(self.id as nat) + " "@ + op_words(
            self.op,
        ) + " ["@ + decimal(self.invoked as nat) + "..] "@ + ret
    }
}

impl Operation {
    pub fn is_pending(&self) -> (r: bool)
        ensures
            r == (self@.outcome is None),
    {
        self.outcome.is_none()
    }

    pub fn key(&self) -> (r: Option<&str>)
        ensures
            match r {
                Some(k) => self@.op.key() == Some(k@),
                None => self@.op.key() is None,
            },
    {
        self.op.key()
    }

    /// When the operation was over.
    pub fn end(&self) -> (r: Nanos)
        ensures
            r == self@.end(),
    {
        match self.completed {
            Some(t) => t,
            None => u64::MAX,
        }
    }

    /// One line about the operation.
    pub fn render(&self) -> (r: String)
        ensures
            r@ == self@.line(),
    {
        let mut s = own("c");
        put_num(&mut s, self.client as u64);
        s.append(" #");
        put_num(&mut s, self.id);
        s.append(" ");
        s.append(op_text(&self.op).as_str());
        s.append(" [");
        put_num(&mut s, self.invoked);
        s.append("..] ");
        let ret = match (&self.outcome, self.completed) {
            (Some(o), Some(t)) => {
                let mut x = own("=> ");
                x.append(outcome_text(o).as_str());
                x.append(" at ");
                put_num(&mut x, t);
                x
            },
            _ => own("=> <no answer>"),
        };
        s.append(ret.as_str());
        s
    }
}

/// The value of one key: the whole model, since keys are independent. `None`
/// is an absent key.
pub type Reg = Option<Seq<char>>;

/// Apply one operation to the model: whether the observed outcome is
/// consistent with taking this step here, and the resulting state. An
/// operation without an answer accepts any result.
pub open spec fn model_step(state: Reg, o: OperationView) -> (bool, Reg) {
    let any = o.outcome is None;
    match o.op {
        OpView::Noop => (true, state),
        OpView::Get { .. } => (any || o.outcome == Some(OutcomeView::Value(state)), state),
        OpView::Put { value, .. } => (any || o.outcome == Some(OutcomeView::Written), Some(value)),
        OpView::Delete { .. } => (any || o.outcome == Some(OutcomeView::Written), None),
        OpView::Cas { expect, value, .. } => (
            any || o.outcome == Some(OutcomeView::Cas(state == expect)),
            if state == expect {
                Some(value)
            } else {
                state
            },
        ),
    }
}

/// Apply one operation to the model.
pub fn step(state: &Option<String>, o: &Operation) -> (r: (bool, Option<String>))
    ensures
        (r.0, opt_text(r.1)) == model_step(opt_text(*state), o@),
{
    let copy = copy_opt(state);
    match &o.op {
        Op::Noop => (true, copy),
        Op::Get { .. } => {
            let ok = match &o.outcome {
                None => true,
                Some(Outcome::Value(v)) => same_opt(v, state),
                _ => false,
            };
            (ok, copy)
        },
        Op::Put { value, .. } => {
            let ok = match &o.outcome {
                None => true,
                Some(Outcome::Written) => true,
                _ => false,
            };
            (ok, Some(value.clone()))
        },
        Op::Delete { .. } => {
            let ok = match &o.outcome {
                None => true,
                Some(Outcome::Written) => true,
                _ => false,
            };
            (ok, None)
        },
        Op::Cas { expect, value, .. } => {
            let matched = same_opt(state, expect);
            let ok = match &o.outcome {
                None => true,
                Some(Outcome::Cas(b)) => *b == matched,
                _ => false,
            };
            (
                ok,
                if matched {
                    Some(value.clone())
                } else {
                    copy
                },
            )
        },
    }
}

/// The model of one key is the store seen through that key: of the answers an
/// operation can be given, it accepts the one the store gives and no other, and
/// moves to the value the store then holds.
pub proof fn law_the_model_is_the_store(
    state: Map<Seq<char>, Seq<char>>,
    o: OperationView,
    key: Seq<char>,
)
    requires
        o.op.key() == Some(key),
        o.outcome is Some,
    ensures
        ({
            let (after, answer) = run_op(state, o.op);
            let (accepted, value) = model_step(lookup(state, key), o);
            &&& accepted <==> o.outcome == Some(answer)
            &&& accepted ==> value == lookup(after, key)
        }),
{
}

} // verus!
