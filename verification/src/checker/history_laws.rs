//! What a history says: which operation came before which, what each may have
//! done, and whether it was recorded properly.

use crate::checker::linearizability::{
    first_fault, id_used, key_verdict, law_well_formed_history, ops_on, recording_fault, VerdictView,
};
use crate::checker::operation::{model_step, OperationView};
use crate::checker::search::{law_search_decides, linearizable, search};
use crate::kvstore::log::OpView;
use crate::kvstore::machine::{lookup, run_op, OutcomeView};
use vstd::prelude::*;

verus! {

/// One operation precedes another where its answer came before the other began:
/// at an earlier time, or at the very time, unless neither of the two took any
/// time at all. One that was never answered precedes none, but for one that
/// begins at the end of time.
pub proof fn law_answers_precede_beginnings(a: OperationView, b: OperationView)
    requires
        b.invoked < u64::MAX,
        a.completed is Some ==> a.invoked <= a.completed->Some_0,
        b.completed is Some ==> b.invoked <= b.completed->Some_0,
    ensures
        a.completed is None ==> !a.precedes(b),
        a.completed matches Some(t) ==> {
            &&& t < b.invoked ==> a.precedes(b)
            &&& t > b.invoked ==> !a.precedes(b)
            &&& t == b.invoked ==> (a.precedes(b) <==> a.invoked < t || b.completed != Some(t))
        },
        a.precedes(b) && a.invoked < b.invoked ==> !b.precedes(a),
{
}

/// An operation that was never answered may have taken effect like any other: it
/// is accepted wherever it is put, and leaves behind what the store would hold.
pub proof fn law_open_operations_may_take_effect(
    state: Map<Seq<char>, Seq<char>>,
    o: OperationView,
    key: Seq<char>,
)
    requires
        o.op.key() == Some(key),
        o.outcome is None,
    ensures
        model_step(lookup(state, key), o).0,
        model_step(lookup(state, key), o).1 == lookup(run_op(state, o.op).0, key),
{
}

/// An operation that was answered otherwise than the store would have answered
/// is accepted nowhere, whatever the answer was.
pub proof fn law_wrong_answers_are_not_accepted(
    state: Map<Seq<char>, Seq<char>>,
    o: OperationView,
    key: Seq<char>,
    answer: OutcomeView,
)
    requires
        o.op.key() == Some(key),
        o.outcome == Some(answer),
    ensures
        model_step(lookup(state, key), o).0 <==> answer == run_op(state, o.op).1,
        model_step(lookup(state, key), o).1 == lookup(run_op(state, o.op).0, key),
{
}

/// The operations on a key are those whose key it is, in their order.
pub proof fn law_operations_on_a_key(ops: Seq<OperationView>, key: Seq<char>)
    ensures
        ops_on(ops, key) == ops.filter(|o: OperationView| o.op.key() == Some(key)),
    decreases ops.len(),
{
    reveal(Seq::filter);
    if ops.len() > 0 {
        law_operations_on_a_key(ops.drop_last(), key);
    }
}

/// The key of an operation is the one it names.
pub proof fn law_operations_name_their_key(
    key: Seq<char>,
    value: Seq<char>,
    expect: Option<Seq<char>>,
)
    ensures
        (OpView::Get { key }).key() == Some(key),
        (OpView::Put { key, value }).key() == Some(key),
        (OpView::Delete { key }).key() == Some(key),
        (OpView::Cas { key, expect, value }).key() == Some(key),
        OpView::Noop.key() is None,
{
}

/// Whether an operation is recorded properly: answered exactly where it has a
/// time of answer, and not before it began.
pub open spec fn proper(o: OperationView) -> bool {
    &&& (o.completed is Some) == (o.outcome is Some)
    &&& o.completed is Some ==> o.completed->Some_0 >= o.invoked
}

/// A history is found faulty exactly where two operations share a number or one
/// is not recorded properly.
pub proof fn law_faults_are_found(ops: Seq<OperationView>)
    ensures
        first_fault(ops, 0) is None <==> (forall|i: int|
            0 <= i < ops.len() ==> proper(#[trigger] ops[i])) && (forall|i: int, j: int|
            0 <= i < j < ops.len() ==> (#[trigger] ops[i]).id != (#[trigger] ops[j]).id),
{
    if (forall|i: int| 0 <= i < ops.len() ==> proper(#[trigger] ops[i])) && (forall|i: int, j: int|
        0 <= i < j < ops.len() ==> (#[trigger] ops[i]).id != (#[trigger] ops[j]).id) {
        lemma_faultless(ops, 0);
    }
    if first_fault(ops, 0) is None {
        law_well_formed_history(ops);
    }
}

proof fn lemma_faultless(ops: Seq<OperationView>, i: int)
    requires
        0 <= i,
        forall|k: int| 0 <= k < ops.len() ==> proper(#[trigger] ops[k]),
        forall|j: int, k: int|
            0 <= j < k < ops.len() ==> (#[trigger] ops[j]).id != (#[trigger] ops[k]).id,
    ensures
        first_fault(ops, i) is None,
    decreases ops.len() - i,
{
    if i < ops.len() {
        assert(proper(ops[i]));
        assert(!id_used(ops, i, ops[i].id)) by {
            if id_used(ops, i, ops[i].id) {
                let j = choose|j: int| 0 <= j < i && (#[trigger] ops[j]).id == ops[i].id;
                assert(ops[j].id != ops[i].id);
            }
        }
        assert(recording_fault(ops, i) is None);
        lemma_faultless(ops, i + 1);
    }
}

/// The verdict on a key says what the search found, and names the key.
pub proof fn law_verdicts_name_their_key(key: Seq<char>, ops: Seq<OperationView>, budget: u64)
    ensures
        match key_verdict(key, ops, budget).0 {
            VerdictView::Linearizable => linearizable(ops),
            VerdictView::Violation { key: k, detail } => k == key && !linearizable(ops),
            VerdictView::Unknown { key: k, reason } => k == key && search(ops, budget as nat).1
                > budget,
        },
        key_verdict(key, ops, budget).1 == search(ops, budget as nat).1,
{
    law_search_decides(ops, budget as nat);
}

} // verus!
