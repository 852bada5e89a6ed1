//! The search for a linearization, as it runs.

use crate::checker::bits::{clean, clear_bit, copy_words, empty_bits, lemma_members_injective, members, set_bit};
use crate::checker::links::{
    ascending, lemma_lists_next, lemma_lists_remove, lemma_relink, lemma_unlink, linked, lists, placed,
    relink, relinked, same_marks, unlink, unlinked, Node,
};
use crate::checker::memo::Memo;
use crate::checker::operation::{operation_views, step, Operation, OperationView, Reg};
use crate::checker::search::{
    advance, is_timeline, lemma_next_live, lemma_timeline, live, mark_key, mark_keys, next_live, run, search,
    start, timeline, Choice, SearchEnd,
};
use crate::sort::{positions, sort_items, Key};
use crate::text::{copy_opt, opt_text};
use vstd::prelude::*;

verus! {

/// A choice the search has made.
pub struct Taken {
    pub call: usize,
    pub prior: Option<String>,
}

impl View for Taken {
    type V = Choice;

    open spec fn view(&self) -> Choice {
        Choice { call: self.call as int, prior: opt_text(self.prior) }
    }
}

/// How a search ended.
pub enum Ended {
    Found,
    Stuck(usize),
    OutOfBudget,
}

impl View for Ended {
    type V = SearchEnd;

    open spec fn view(&self) -> SearchEnd {
        match self {
            Ended::Found => SearchEnd::Found,
            Ended::Stuck(i) => SearchEnd::Stuck(*i as int),
            Ended::OutOfBudget => SearchEnd::OutOfBudget,
        }
    }
}

/// What it takes to undo a choice: the list before it, what was done then, and
/// where the call and (with the call gone) the return stood in that list.
pub struct Undo {
    pub list: Seq<int>,
    pub done: Set<int>,
    pub a: int,
    pub b: int,
}

/// Whether the nodes carry the marks of a timeline.
pub open spec fn marked(nodes: Seq<Node>, tl: Seq<int>) -> bool {
    &&& nodes.len() == tl.len() + 1
    &&& nodes.len() <= usize::MAX
    &&& forall|p: int|
        0 <= p < tl.len() ==> {
            let x = #[trigger] nodes[p];
            &&& x.is_call == (tl[p] % 2 == 0)
            &&& x.op == tl[p] / 2
            &&& 0 <= x.matching < tl.len()
            &&& tl[x.matching as int] == if tl[p] % 2 == 0 {
                tl[p] + 1
            } else {
                tl[p] - 1
            }
        }
}

/// Whether a choice can be undone from a list and a set of done operations.
pub open spec fn undoable(
    nodes: Seq<Node>,
    tl: Seq<int>,
    u: Undo,
    call: int,
    list: Seq<int>,
    done: Set<int>,
) -> bool {
    let i = tl[call] / 2;
    let without = u.list.remove(u.a);
    &&& lists(tl, u.done, u.list)
    &&& 0 <= u.a < u.list.len()
    &&& u.list[u.a] == call
    &&& 0 <= u.b < without.len()
    &&& tl[call] % 2 == 0
    &&& !u.done.contains(i)
    &&& nodes[call].matching == without[u.b]
    &&& placed(nodes, u.list, u.a)
    &&& placed(nodes, without, u.b)
    &&& list == without.remove(u.b)
    &&& done == u.done.insert(i)
}

/// The list in force after the first `k` choices.
pub open spec fn list_by(undo: Seq<Undo>, list: Seq<int>, k: int) -> Seq<int> {
    if k < undo.len() {
        undo[k].list
    } else {
        list
    }
}

/// What was done after the first `k` choices.
pub open spec fn done_at(undo: Seq<Undo>, done: Set<int>, k: int) -> Set<int> {
    if k < undo.len() {
        undo[k].done
    } else {
        done
    }
}

/// Whether every choice on the path can be undone in turn.
pub open spec fn nested(
    nodes: Seq<Node>,
    tl: Seq<int>,
    path: Seq<Choice>,
    undo: Seq<Undo>,
    list: Seq<int>,
    done: Set<int>,
) -> bool {
    &&& undo.len() == path.len()
    &&& forall|k: int|
        0 <= k < path.len() ==> {
            &&& 0 <= (#[trigger] path[k]).call < tl.len()
            &&& done.contains(tl[path[k].call] / 2)
            &&& undoable(
                nodes,
                tl,
                undo[k],
                path[k].call,
                list_by(undo, list, k + 1),
                done_at(undo, done, k + 1),
            )
        }
}

proof fn lemma_marked_same(a: Seq<Node>, b: Seq<Node>, tl: Seq<int>)
    requires
        marked(a, tl),
        same_marks(a, b),
    ensures
        marked(b, tl),
{
    assert forall|p: int| 0 <= p < tl.len() implies {
        let x = #[trigger] b[p];
        &&& x.is_call == (tl[p] % 2 == 0)
        &&& x.op == tl[p] / 2
        &&& 0 <= x.matching < tl.len()
        &&& tl[x.matching as int] == if tl[p] % 2 == 0 {
            tl[p] + 1
        } else {
            tl[p] - 1
        }
    } by {
        assert(a[p].op == b[p].op);
    }
}

/// Choices stay undoable while the nodes of what is done keep their links.
proof fn lemma_nested_frame(
    a: Seq<Node>,
    b: Seq<Node>,
    tl: Seq<int>,
    path: Seq<Choice>,
    undo: Seq<Undo>,
    list: Seq<int>,
    done: Set<int>,
)
    requires
        nested(a, tl, path, undo, list, done),
        marked(a, tl),
        a.len() == b.len(),
        forall|x: int|
            0 <= x < tl.len() && done.contains(#[trigger] tl[x] / 2) ==> b[x] == a[x],
    ensures
        nested(b, tl, path, undo, list, done),
{
    assert forall|k: int| 0 <= k < path.len() implies {
        &&& 0 <= (#[trigger] path[k]).call < tl.len()
        &&& done.contains(tl[path[k].call] / 2)
        &&& undoable(
            b,
            tl,
            undo[k],
            path[k].call,
            list_by(undo, list, k + 1),
            done_at(undo, done, k + 1),
        )
    } by {
        let c = path[k].call;
        let u = undo[k];
        let r = u.list.remove(u.a)[u.b];
        assert(u.list[u.a] == c);
        assert(a[c].matching == r);
        assert(tl[r] == tl[c] + 1);
        assert(tl[r] / 2 == tl[c] / 2);
        assert(b[c] == a[c]);
        assert(b[r] == a[r]);
    }
}

/// What the search has seen, as words and as sets.
pub open spec fn seen_agree(
    memo: Set<(Seq<u64>, Reg)>,
    seen: Set<(Set<int>, Reg)>,
    n: nat,
) -> bool {
    forall|w: Seq<u64>, r: Reg|
        clean(w, n) ==> (#[trigger] memo.contains((w, r)) <==> seen.contains((members(w, n), r)))
}

fn build_timeline(ops: &Vec<Operation>) -> (r: Vec<usize>)
    ensures
        positions(r@) == timeline(operation_views(ops@)),
        is_timeline(operation_views(ops@), positions(r@)),
        r@.len() == 2 * ops@.len(),
{
    let ghost v = operation_views(ops@);
    let mut keys: Vec<Key> = Vec::new();
    let mut i: usize = 0;
    while i < ops.len()
        invariant
            i <= ops@.len(),
            v == operation_views(ops@),
            keys@.len() == 2 * i,
            forall|e: int| 0 <= e < keys@.len() ==> #[trigger] keys@[e] == mark_key(v, e),
        decreases ops@.len() - i,
    {
        let o = &ops[i];
        assert(v[i as int] == o@);
        assert(v[(2 * i) / 2] == o@ && v[(2 * i + 1) / 2] == o@);
        let instant = o.end() == o.invoked;
        let call: u64 = if instant {
            1
        } else {
            3
        };
        let ret: u64 = if instant {
            2
        } else {
            0
        };
        keys.push(Key { first: o.invoked, second: call, third: o.id });
        keys.push(Key { first: o.end(), second: ret, third: o.id });
        i += 1;
    }
    assert(keys@ =~= mark_keys(v));
    proof {
        lemma_timeline(v);
    }
    sort_items(&keys)
}

fn build_nodes(order: &Vec<usize>, Ghost(ops): Ghost<Seq<OperationView>>) -> (r: Vec<Node>)
    requires
        is_timeline(ops, positions(order@)),
        order@.len() == 2 * ops.len(),
    ensures
        marked(r@, positions(order@)),
        linked(r@, Seq::new(order@.len(), |p: int| p)),
{
    let ghost tl = positions(order@);
    let m: usize = order.len();
    let mut place: Vec<usize> = vec![0usize;m];
    let mut p: usize = 0;
    while p < m
        invariant
            p <= m,
            m == order@.len(),
            tl == positions(order@),
            is_timeline(ops, tl),
            order@.len() == 2 * ops.len(),
            place@.len() == m,
            forall|q: int| 0 <= q < p ==> place@[#[trigger] tl[q]] == q,
        decreases m - p,
    {
        assert(tl[p as int] == order@[p as int]);
        let e: usize = order[p];
        place[e] = p;
        assert forall|q: int| 0 <= q < p + 1 implies place@[#[trigger] tl[q]] == q by {
            if q < p {
                assert(tl[q] != tl[p as int]);
            }
        }
        p += 1;
    }
    let mut nodes: Vec<Node> = Vec::new();
    let mut q: usize = 0;
    while q < m
        invariant
            q <= m,
            m == order@.len(),
            tl == positions(order@),
            is_timeline(ops, tl),
            order@.len() == 2 * ops.len(),
            place@.len() == m,
            forall|x: int| 0 <= x < m ==> place@[#[trigger] tl[x]] == x,
            nodes@.len() == q,
            forall|x: int|
                0 <= x < q ==> {
                    let y = #[trigger] nodes@[x];
                    &&& y.is_call == (tl[x] % 2 == 0)
                    &&& y.op == tl[x] / 2
                    &&& y.matching < m
                    &&& tl[y.matching as int] == if tl[x] % 2 == 0 {
                        tl[x] + 1
                    } else {
                        tl[x] - 1
                    }
                    &&& y.prev == if x == 0 {
                        m as int
                    } else {
                        x - 1
                    }
                    &&& y.next == x + 1
                },
        decreases m - q,
    {
        assert(tl[q as int] == order@[q as int]);
        let e: usize = order[q];
        let is_call = e % 2 == 0;
        let other: usize = if is_call {
            e + 1
        } else {
            e - 1
        };
        assert(tl.contains(other as int));
        proof {
            let x = choose|x: int| 0 <= x < tl.len() && tl[x] == other;
            assert(place@[tl[x]] == x);
        }
        nodes.push(
            Node {
                is_call,
                op: e / 2,
                matching: place[other],
                prev: if q == 0 {
                    m
                } else {
                    q - 1
                },
                next: q + 1,
            },
        );
        q += 1;
    }
    nodes.push(
        Node {
            is_call: false,
            op: 0,
            matching: 0,
            prev: if m == 0 {
                m
            } else {
                m - 1
            },
            next: 0,
        },
    );
    proof {
        let l = Seq::new(order@.len(), |p: int| p);
        assert forall|a: int| 0 <= a < l.len() implies #[trigger] placed(nodes@, l, a) by {
            assert(l[a] == a);
        }
        assert(nodes.len() == m + 1);
    }
    nodes
}

/// What an earlier choice linearized is done at every later level.
proof fn lemma_done_grows(
    nodes: Seq<Node>,
    tl: Seq<int>,
    path: Seq<Choice>,
    undo: Seq<Undo>,
    list: Seq<int>,
    done: Set<int>,
    k: int,
    m: int,
)
    requires
        nested(nodes, tl, path, undo, list, done),
        0 <= k < m < path.len(),
    ensures
        undo[m].done.contains(tl[path[k].call] / 2),
    decreases m - k,
{
    if k + 1 == m {
        assert(done_at(undo, done, k + 1) == undo[m].done);
        assert(path[k].call == path[k].call);
    } else {
        lemma_done_grows(nodes, tl, path, undo, list, done, k, m - 1);
        let c = path[m - 1].call;
        assert(done_at(undo, done, m) == undo[m].done);
        assert(undo[m].done == undo[m - 1].done.insert(tl[c] / 2));
    }
}

/// Whether the nodes are threaded along the live marks of a timeline, with
/// every choice on the path ready to be undone.
#[verifier::opaque]
pub open spec fn threads(
    nodes: Seq<Node>,
    tl: Seq<int>,
    path: Seq<Choice>,
    undo: Seq<Undo>,
    list: Seq<int>,
    done: Set<int>,
) -> bool {
    &&& marked(nodes, tl)
    &&& linked(nodes, list)
    &&& lists(tl, done, list)
    &&& nested(nodes, tl, path, undo, list, done)
}

proof fn lemma_threads_start(nodes: Seq<Node>, tl: Seq<int>, list: Seq<int>)
    requires
        marked(nodes, tl),
        linked(nodes, list),
        list == Seq::new(tl.len(), |p: int| p),
    ensures
        threads(nodes, tl, Seq::empty(), Seq::empty(), list, Set::empty()),
        nodes[tl.len() as int].next == next_live(tl, Set::empty(), 0),
{
    reveal(threads);
    assert forall|p: int| #[trigger] list.contains(p) <==> live(tl, Set::empty(), p) by {
        if 0 <= p < list.len() {
            assert(list[p] == p);
        }
    }
    lemma_lists_next(tl, Set::empty(), list, -1);
}

/// What the threading says of one live mark.
proof fn lemma_threads_node(
    nodes: Seq<Node>,
    tl: Seq<int>,
    path: Seq<Choice>,
    undo: Seq<Undo>,
    list: Seq<int>,
    done: Set<int>,
    e: int,
)
    requires
        threads(nodes, tl, path, undo, list, done),
        live(tl, done, e),
    ensures
        nodes.len() == tl.len() + 1,
        nodes.len() <= usize::MAX,
        nodes[e].is_call == (tl[e] % 2 == 0),
        nodes[e].op == tl[e] / 2,
        0 <= nodes[e].matching < tl.len(),
        nodes[e].prev < nodes.len(),
        nodes[e].next < nodes.len(),
        nodes[e].next == next_live(tl, done, e + 1),
{
    reveal(threads);
    assert(list.contains(e));
    let a = choose|a: int| 0 <= a < list.len() && list[a] == e;
    assert(placed(nodes, list, a));
    lemma_lists_next(tl, done, list, a);
}

proof fn lemma_distinct(ops: Seq<OperationView>, tl: Seq<int>)
    requires
        is_timeline(ops, tl),
    ensures
        forall|p: int, q: int|
            0 <= p < tl.len() && 0 <= q < tl.len() && p != q ==> #[trigger] tl[p] != #[trigger] tl[q],
{
    assert forall|p: int, q: int|
        0 <= p < tl.len() && 0 <= q < tl.len() && p != q implies #[trigger] tl[p]
        != #[trigger] tl[q] by {
        if p < q {
            assert(tl[p] != tl[q]);
        } else {
            assert(tl[q] != tl[p]);
        }
    }
}

/// Linearizing the operation whose call is at `e`.
#[verifier::rlimit(40)]
proof fn lemma_enter(
    ops: Seq<OperationView>,
    nodes0: Seq<Node>,
    tl: Seq<int>,
    path: Seq<Choice>,
    undo: Seq<Undo>,
    list0: Seq<int>,
    done0: Set<int>,
    e: int,
    prior: Reg,
) -> (r: (Seq<int>, Seq<Undo>))
    requires
        is_timeline(ops, tl),
        threads(nodes0, tl, path, undo, list0, done0),
        live(tl, done0, e),
        tl[e] % 2 == 0,
    ensures
        ({
            let ret = nodes0[e].matching as int;
            let nodes1 = unlinked(nodes0, e);
            let nodes2 = unlinked(nodes1, ret);
            let done = done0.insert(tl[e] / 2);
            &&& 0 <= ret < tl.len()
            &&& nodes1.len() == nodes0.len()
            &&& nodes1[ret].prev < nodes0.len()
            &&& nodes1[ret].next < nodes0.len()
            &&& threads(nodes2, tl, path.push(Choice { call: e, prior }), r.1, r.0, done)
            &&& nodes2.len() == tl.len() + 1
            &&& nodes2[tl.len() as int].next == next_live(tl, done, 0)
        }),
{
    reveal(threads);
    lemma_distinct(ops, tl);
    let i = tl[e] / 2;
    let ret = nodes0[e].matching as int;
    let done = done0.insert(i);
    assert(list0.contains(e));
    let a = choose|a: int| 0 <= a < list0.len() && list0[a] == e;
    let mid = list0.remove(a);
    assert(placed(nodes0, list0, a));
    assert(tl[ret] == tl[e] + 1);
    assert(tl[ret] / 2 == i);
    assert(live(tl, done0, ret));
    assert(list0.contains(ret));
    lemma_unlink(nodes0, list0, a);
    let nodes1 = unlinked(nodes0, e);
    lemma_marked_same(nodes0, nodes1, tl);
    let z = choose|z: int| 0 <= z < list0.len() && list0[z] == ret;
    let b = if z < a {
        z
    } else {
        z - 1
    };
    assert(mid[b] == ret);
    assert(placed(nodes1, mid, b));
    lemma_unlink(nodes1, mid, b);
    let nodes2 = unlinked(nodes1, ret);
    lemma_marked_same(nodes1, nodes2, tl);
    let list = mid.remove(b);
    let u = Undo { list: list0, done: done0, a, b };
    lemma_lists_remove(tl, done0, list0, a, b, i);
    // Nodes of what was done before keep their links.
    assert forall|x: int| 0 <= x < tl.len() && done0.contains(#[trigger] tl[x] / 2) implies nodes2[x]
        == nodes0[x] by {
        assert(!live(tl, done0, x));
        assert(!list0.contains(x));
        if mid.contains(x) {
            let y = choose|y: int| 0 <= y < mid.len() && mid[y] == x;
            assert(list0[if y < a {
                y
            } else {
                y + 1
            }] == x);
        }
        assert(nodes1[x] == nodes0[x]);
    }
    lemma_nested_frame(nodes0, nodes2, tl, path, undo, list0, done0);
    assert(nodes2[e] == nodes0[e]) by {
        if mid.contains(e) {
            let y = choose|y: int| 0 <= y < mid.len() && mid[y] == e;
            let y0 = if y < a {
                y
            } else {
                y + 1
            };
            assert(list0[y0] == e);
            if y0 < a {
                assert(list0[y0] < list0[a]);
            } else {
                assert(list0[a] < list0[y0]);
            }
        }
        assert(nodes1[e] == nodes0[e]);
    }
    assert(nodes2[ret] == nodes1[ret]);
    assert(undoable(nodes2, tl, u, e, list, done)) by {
        assert(placed(nodes2, list0, a));
        assert(placed(nodes2, mid, b));
    }
    let path2 = path.push(Choice { call: e, prior });
    let undo2 = undo.push(u);
    assert(nested(nodes2, tl, path2, undo2, list, done)) by {
        assert forall|k: int| 0 <= k < path2.len() implies {
            &&& 0 <= (#[trigger] path2[k]).call < tl.len()
            &&& done.contains(tl[path2[k].call] / 2)
            &&& undoable(
                nodes2,
                tl,
                undo2[k],
                path2[k].call,
                list_by(undo2, list, k + 1),
                done_at(undo2, done, k + 1),
            )
        } by {
            if k < path.len() {
                assert(path2[k] == path[k]);
                assert(undo2[k] == undo[k]);
                assert(list_by(undo2, list, k + 1) == list_by(undo, list0, k + 1));
                assert(done_at(undo2, done, k + 1) == done_at(undo, done0, k + 1));
            }
        }
    }
    lemma_lists_next(tl, done, list, -1);
    (list, undo2)
}

/// Undoing the last choice.
#[verifier::rlimit(40)]
proof fn lemma_leave(
    nodes0: Seq<Node>,
    tl: Seq<int>,
    path: Seq<Choice>,
    undo: Seq<Undo>,
    list0: Seq<int>,
    done0: Set<int>,
) -> (r: (Seq<int>, Seq<Undo>))
    requires
        threads(nodes0, tl, path, undo, list0, done0),
        path.len() > 0,
    ensures
        ({
            let call = path.last().call;
            let ret = nodes0[call].matching as int;
            let nodes1 = relinked(nodes0, ret);
            let nodes2 = relinked(nodes1, call);
            let i = tl[call] / 2;
            let done = done0.remove(i);
            &&& 0 <= call < tl.len()
            &&& nodes0.len() == tl.len() + 1
            &&& 0 <= ret < tl.len()
            &&& nodes0[call].op == i
            &&& done0.contains(i)
            &&& nodes0[ret].prev < nodes0.len()
            &&& nodes0[ret].next < nodes0.len()
            &&& nodes1.len() == nodes0.len()
            &&& nodes1[call].prev < nodes0.len()
            &&& nodes1[call].next < nodes0.len()
            &&& nodes2.len() == nodes0.len()
            &&& threads(nodes2, tl, path.drop_last(), r.1, r.0, done)
            &&& nodes2[call].next == next_live(tl, done, call + 1)
        }),
{
    reveal(threads);
    let m = path.len() - 1;
    let u = undo[m];
    let mid = u.list.remove(u.a);
    let call = path[m].call;
    let ret = nodes0[call].matching as int;
    let i = tl[call] / 2;
    assert(undoable(nodes0, tl, u, call, list0, done0));
    assert(done0.remove(i) =~= u.done);
    assert(mid[u.b] == ret);
    assert(placed(nodes0, mid, u.b));
    assert(ascending(mid, tl.len() as int)) by {
        assert forall|x: int| 0 <= x < mid.len() implies #[trigger] mid[x] == u.list[if x < u.a {
            x
        } else {
            x + 1
        }] by {}
    }
    if u.b > 0 {
        assert(0 <= mid[u.b - 1] < tl.len());
    }
    if u.b + 1 < mid.len() {
        assert(0 <= mid[u.b + 1] < tl.len());
    }
    lemma_relink(nodes0, mid, u.b);
    let nodes1 = relinked(nodes0, ret);
    lemma_marked_same(nodes0, nodes1, tl);
    assert(tl[ret] == tl[call] + 1);
    assert(!list0.contains(call)) by {
        if list0.contains(call) {
            assert(live(tl, done0, call));
        }
    }
    assert(nodes1[call] == nodes0[call]);
    assert(placed(nodes1, u.list, u.a));
    lemma_relink(nodes1, u.list, u.a);
    let nodes2 = relinked(nodes1, call);
    lemma_marked_same(nodes1, nodes2, tl);
    let path2 = path.drop_last();
    let undo2 = undo.drop_last();
    assert(nested(nodes0, tl, path2, undo2, u.list, u.done)) by {
        assert forall|k: int| 0 <= k < path2.len() implies {
            &&& 0 <= (#[trigger] path2[k]).call < tl.len()
            &&& u.done.contains(tl[path2[k].call] / 2)
            &&& undoable(
                nodes0,
                tl,
                undo2[k],
                path2[k].call,
                list_by(undo2, u.list, k + 1),
                done_at(undo2, u.done, k + 1),
            )
        } by {
            assert(path2[k] == path[k]);
            assert(undo2[k] == undo[k]);
            assert(list_by(undo2, u.list, k + 1) == list_by(undo, list0, k + 1));
            assert(done_at(undo2, u.done, k + 1) == done_at(undo, done0, k + 1));
            lemma_done_grows(nodes0, tl, path, undo, list0, done0, k, m);
        }
    }
    assert forall|x: int| 0 <= x < tl.len() && u.done.contains(#[trigger] tl[x] / 2) implies nodes2[x]
        == nodes0[x] by {
        assert(!live(tl, u.done, x));
        assert(!u.list.contains(x));
        if mid.contains(x) {
            let y = choose|y: int| 0 <= y < mid.len() && mid[y] == x;
            assert(u.list[if y < u.a {
                y
            } else {
                y + 1
            }] == x);
        }
        if list0.contains(x) {
            assert(live(tl, done0, x));
        }
        assert(nodes1[x] == nodes0[x]);
        assert(nodes2[x] == nodes1[x]);
    }
    lemma_nested_frame(nodes0, nodes2, tl, path2, undo2, u.list, u.done);
    assert(placed(nodes2, u.list, u.a));
    lemma_lists_next(tl, u.done, u.list, u.a);
    (u.list, undo2)
}

/// A configuration just put in the memo is one more the search has seen.
proof fn lemma_seen_insert(
    memo: Set<(Seq<u64>, Reg)>,
    seen: Set<(Set<int>, Reg)>,
    n: nat,
    w: Seq<u64>,
    r: Reg,
)
    requires
        seen_agree(memo, seen, n),
        clean(w, n),
    ensures
        seen_agree(memo.insert((w, r)), seen.insert((members(w, n), r)), n),
        memo.contains((w, r)) == seen.contains((members(w, n), r)),
{
    let (m2, s2) = (memo.insert((w, r)), seen.insert((members(w, n), r)));
    assert forall|x: Seq<u64>, q: Reg| clean(x, n) implies (#[trigger] m2.contains((x, q))
        <==> s2.contains((members(x, n), q))) by {
        assert(memo.contains((x, q)) <==> seen.contains((members(x, n), q)));
        if members(x, n) == members(w, n) {
            lemma_members_injective(x, w, n);
        }
    }
    assert(memo.contains((w, r)) <==> seen.contains((members(w, n), r)));
}

/// Search the operations on one key with a budget of moves: how the search
/// ended, and how many moves it began.
#[verifier::rlimit(60)]
pub fn run_search(ops: &Vec<Operation>, budget: u64) -> (r: (Ended, u64))
    ensures
        r.0@ == search(operation_views(ops@), budget as nat).0,
        r.1 == (if search(operation_views(ops@), budget as nat).1 > u64::MAX {
            u64::MAX as nat
        } else {
            search(operation_views(ops@), budget as nat).1
        }),
        r.0 is Stuck ==> r.0->Stuck_0 < ops@.len(),
{
    let ghost v = operation_views(ops@);
    let order = build_timeline(ops);
    let ghost tl = positions(order@);
    let n: usize = ops.len();
    let mut nodes = build_nodes(&order, Ghost(v));
    let sentinel: usize = order.len();
    let mut words = empty_bits(n);
    let mut memo = Memo::new();
    let mut calls: Vec<Taken> = Vec::new();
    let mut state: Option<String> = None;
    let mut entry: usize = nodes[sentinel].next;
    let mut steps: u64 = 0;
    let ghost mut s = start(tl);
    let ghost mut list = Seq::new(order@.len(), |p: int| p);
    let ghost mut undo: Seq<Undo> = Seq::empty();
    proof {
        assert(list =~= Seq::new(tl.len(), |p: int| p));
        lemma_threads_start(nodes@, tl, list);
        lemma_next_live(tl, Set::empty(), 0);
    }
    while entry < sentinel
        invariant
            v == operation_views(ops@),
            is_timeline(v, tl),
            n == ops@.len(),
            sentinel == tl.len(),
            sentinel == 2 * n,
            steps <= budget,
            nodes@.len() == tl.len() + 1,
            threads(nodes@, tl, s.path, undo, list, s.done),
            clean(words@, n as nat),
            members(words@, n as nat) == s.done,
            memo.wf(),
            seen_agree(memo@, s.seen, n as nat),
            calls@.len() == s.path.len(),
            forall|k: int| 0 <= k < calls@.len() ==> (#[trigger] calls@[k])@ == s.path[k],
            opt_text(state) == s.state,
            entry == s.at,
            0 <= s.at <= tl.len(),
            entry < sentinel ==> live(tl, s.done, entry as int),
            search(v, budget as nat) == (
                run(v, tl, s, (budget - steps) as nat).0,
                (steps + run(v, tl, s, (budget - steps) as nat).1) as nat,
            ),
        decreases budget - steps,
    {
        if steps == budget {
            let total: u64 = if steps == u64::MAX {
                u64::MAX
            } else {
                steps + 1
            };
            return (Ended::OutOfBudget, total);
        }
        steps = steps + 1;
        let ghost s0 = s;
        let ghost mv = advance(v, tl, s0);
        let ghost e = entry as int;
        proof {
            lemma_threads_node(nodes@, tl, s.path, undo, list, s.done, e);
            assert(0 <= tl[e] < 2 * n);
        }
        let node = nodes[entry];
        if node.is_call {
            let i: usize = node.op;
            assert(v[i as int] == ops@[i as int]@);
            let (ok, next_state) = step(&state, &ops[i]);
            let mut fresh = false;
            if ok {
                let mut bits = copy_words(&words);
                proof {
                    assert(i / 64 < bits@.len());
                    assert(clean(words@, n as nat) && i < n);
                }
                set_bit(&mut bits, i);
                let key = copy_words(&bits);
                proof {
                    lemma_seen_insert(memo@, s.seen, n as nat, bits@, opt_text(next_state));
                }
                fresh = memo.insert(key, copy_opt(&next_state));
                if fresh {
                    words = bits;
                } else {
                    assert(s.seen.insert((s.done.insert(i as int), opt_text(next_state)))
                        =~= s.seen);
                }
            }
            if fresh {
                proof {
                    let (l, u) = lemma_enter(
                        v,
                        nodes@,
                        tl,
                        s.path,
                        undo,
                        list,
                        s.done,
                        e,
                        s.state,
                    );
                    list = l;
                    undo = u;
                    s = mv->Next_0;
                    lemma_next_live(tl, s.done, 0);
                }
                let prior = state;
                calls.push(Taken { call: entry, prior });
                state = next_state;
                unlink(&mut nodes, entry);
                unlink(&mut nodes, node.matching);
                entry = nodes[sentinel].next;
            } else {
                proof {
                    lemma_next_live(tl, s.done, e + 1);
                    s = mv->Next_0;
                }
                entry = node.next;
            }
        } else {
            // A return reached before its call was linearized: this prefix
            // cannot be extended, so undo the most recent choice.
            let top = match calls.pop() {
                Some(t) => t,
                None => {
                    return (Ended::Stuck(node.op), steps);
                },
            };
            let call: usize = top.call;
            proof {
                let (l, u) = lemma_leave(nodes@, tl, s.path, undo, list, s.done);
                assert(s.path.last() == top@);
                list = l;
                undo = u;
                s = mv->Next_0;
                lemma_next_live(tl, s.done, call + 1);
                assert(tl[call as int] / 2 < n) by {
                    assert(0 <= tl[call as int] < 2 * n);
                }
                assert(clean(words@, n as nat));
            }
            let i: usize = nodes[call].op;
            let ret: usize = nodes[call].matching;
            clear_bit(&mut words, i);
            state = top.prior;
            relink(&mut nodes, ret);
            relink(&mut nodes, call);
            entry = nodes[call].next;
        }
    }
    (Ended::Found, steps)
}

} // verus!
