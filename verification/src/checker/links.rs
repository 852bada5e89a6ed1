//! The timeline as a doubly linked list. Linearizing an operation removes its
//! call and return; backtracking puts them back, in constant time.

use crate::checker::search::{lemma_next_live, live, next_live};
use vstd::prelude::*;

verus! {

/// A mark of the timeline and its neighbours.
#[derive(Clone, Copy, Debug)]
pub struct Node {
    pub is_call: bool,
    pub op: usize,
    pub matching: usize,
    pub prev: usize,
    pub next: usize,
}

/// What stands before place `a`; `end` before the first.
pub open spec fn before(l: Seq<int>, a: int, end: int) -> int {
    if a > 0 {
        l[a - 1]
    } else {
        end
    }
}

/// What stands after place `a`; `end` after the last.
pub open spec fn after(l: Seq<int>, a: int, end: int) -> int {
    if a + 1 < l.len() {
        l[a + 1]
    } else {
        end
    }
}

/// Whether a list is strictly ascending and below `end`.
pub open spec fn ascending(l: Seq<int>, end: int) -> bool {
    &&& forall|a: int| 0 <= a < l.len() ==> 0 <= #[trigger] l[a] < end
    &&& forall|a: int, b: int| 0 <= a < b < l.len() ==> #[trigger] l[a] < #[trigger] l[b]
}

/// Whether the node at place `a` of a list knows its neighbours there.
pub open spec fn placed(nodes: Seq<Node>, l: Seq<int>, a: int) -> bool {
    let end = nodes.len() - 1;
    nodes[l[a]].prev == before(l, a, end) && nodes[l[a]].next == after(l, a, end)
}

/// Whether the nodes are threaded along a list, with the last node as both its
/// head and its tail.
pub open spec fn linked(nodes: Seq<Node>, l: Seq<int>) -> bool {
    let end = nodes.len() - 1;
    &&& nodes.len() > 0
    &&& ascending(l, end)
    &&& forall|a: int| 0 <= a < l.len() ==> #[trigger] placed(nodes, l, a)
    &&& nodes[end].next == after(l, -1, end)
    &&& nodes[end].prev == before(l, l.len() as int, end)
}

/// The nodes with `i` taken out between its neighbours.
pub open spec fn unlinked(nodes: Seq<Node>, i: int) -> Seq<Node> {
    let (p, n) = (nodes[i].prev as int, nodes[i].next as int);
    let first = nodes.update(p, Node { next: n as usize, ..nodes[p] });
    first.update(n, Node { prev: p as usize, ..first[n] })
}

/// The nodes with `i` put back between its neighbours.
pub open spec fn relinked(nodes: Seq<Node>, i: int) -> Seq<Node> {
    let (p, n) = (nodes[i].prev as int, nodes[i].next as int);
    let first = nodes.update(p, Node { next: i as usize, ..nodes[p] });
    first.update(n, Node { prev: i as usize, ..first[n] })
}

/// Whether two lists of nodes differ in nothing but their links.
pub open spec fn same_marks(a: Seq<Node>, b: Seq<Node>) -> bool {
    &&& a.len() == b.len()
    &&& forall|i: int|
        0 <= i < a.len() ==> (#[trigger] a[i]).is_call == b[i].is_call && a[i].op == b[i].op
            && a[i].matching == b[i].matching
}

pub proof fn lemma_unlink(nodes: Seq<Node>, l: Seq<int>, a: int)
    requires
        linked(nodes, l),
        0 <= a < l.len(),
        nodes.len() <= usize::MAX,
    ensures
        linked(unlinked(nodes, l[a]), l.remove(a)),
        same_marks(nodes, unlinked(nodes, l[a])),
        unlinked(nodes, l[a])[l[a]] == nodes[l[a]],
        forall|x: int|
            0 <= x < nodes.len() - 1 && !l.contains(x) ==> #[trigger] unlinked(nodes, l[a])[x]
                == nodes[x],
{
    let end = nodes.len() - 1;
    let m = l.remove(a);
    let r = unlinked(nodes, l[a]);
    let (p, n) = (before(l, a, end), after(l, a, end));
    assert(placed(nodes, l, a));
    assert(nodes[l[a]].prev == p && nodes[l[a]].next == n);
    assert forall|b: int| 0 <= b < m.len() implies #[trigger] placed(r, m, b) by {
        let c = if b < a {
            b
        } else {
            b + 1
        };
        assert(m[b] == l[c]);
        assert(placed(nodes, l, c));
        if b + 1 < m.len() {
            assert(m[b + 1] == l[if b + 1 < a {
                b + 1
            } else {
                b + 2
            }]);
        }
        if b > 0 {
            assert(m[b - 1] == l[if b - 1 < a {
                b - 1
            } else {
                b
            }]);
        }
    }
    assert(ascending(m, end)) by {
        assert forall|b: int, c: int| 0 <= b < c < m.len() implies #[trigger] m[b]
            < #[trigger] m[c] by {
            assert(m[b] == l[if b < a {
                b
            } else {
                b + 1
            }]);
            assert(m[c] == l[if c < a {
                c
            } else {
                c + 1
            }]);
        }
        assert forall|b: int| 0 <= b < m.len() implies 0 <= #[trigger] m[b] < end by {
            assert(m[b] == l[if b < a {
                b
            } else {
                b + 1
            }]);
        }
    }
    assert(r.len() == nodes.len());
    assert forall|x: int| 0 <= x < nodes.len() - 1 && !l.contains(x) implies #[trigger] r[x]
        == nodes[x] by {
        if a > 0 {
            assert(l.contains(l[a - 1]));
        }
        if a + 1 < l.len() {
            assert(l.contains(l[a + 1]));
        }
    }
    if m.len() > 0 {
        assert(m[0] == l[if a == 0 {
            1
        } else {
            0
        }]);
        assert(m[m.len() - 1] == l[if a == l.len() - 1 {
            l.len() - 2
        } else {
            l.len() - 1
        }]);
    }
}

pub proof fn lemma_relink(nodes: Seq<Node>, l: Seq<int>, a: int)
    requires
        0 <= a < l.len(),
        ascending(l, nodes.len() - 1),
        linked(nodes, l.remove(a)),
        placed(nodes, l, a),
        nodes.len() <= usize::MAX,
    ensures
        linked(relinked(nodes, l[a]), l),
        same_marks(nodes, relinked(nodes, l[a])),
        forall|x: int|
            0 <= x < nodes.len() - 1 && !l.remove(a).contains(x) ==> #[trigger] relinked(nodes, l[a])[x]
                == nodes[x],
{
    let end = nodes.len() - 1;
    let m = l.remove(a);
    let r = relinked(nodes, l[a]);
    let (p, n) = (before(l, a, end), after(l, a, end));
    assert(nodes[l[a]].prev == p && nodes[l[a]].next == n);
    assert forall|b: int| 0 <= b < l.len() implies #[trigger] placed(r, l, b) by {
        if b != a {
            let c = if b < a {
                b
            } else {
                b - 1
            };
            assert(m[c] == l[b]);
            assert(placed(nodes, m, c));
            if c + 1 < m.len() {
                assert(m[c + 1] == l[if c + 1 < a {
                    c + 1
                } else {
                    c + 2
                }]);
            }
            if c > 0 {
                assert(m[c - 1] == l[if c - 1 < a {
                    c - 1
                } else {
                    c
                }]);
            }
        }
    }
    assert forall|x: int| 0 <= x < nodes.len() - 1 && !m.contains(x) implies #[trigger] r[x]
        == nodes[x] by {
        if a > 0 {
            assert(m[a - 1] == l[a - 1]);
            assert(m.contains(l[a - 1]));
        }
        if a + 1 < l.len() {
            assert(m[a] == l[a + 1]);
            assert(m.contains(l[a + 1]));
        }
    }
    if m.len() > 0 {
        assert(m[0] == l[if a == 0 {
            1
        } else {
            0
        }]);
        assert(m[m.len() - 1] == l[if a == l.len() - 1 {
            l.len() - 2
        } else {
            l.len() - 1
        }]);
    }
}

/// Take a node out of the list.
pub fn unlink(nodes: &mut Vec<Node>, i: usize)
    requires
        i < old(nodes)@.len(),
        old(nodes)@[i as int].prev < old(nodes)@.len(),
        old(nodes)@[i as int].next < old(nodes)@.len(),
    ensures
        final(nodes)@ == unlinked(old(nodes)@, i as int),
{
    let p: usize = nodes[i].prev;
    let n: usize = nodes[i].next;
    let mut x = nodes[p];
    x.next = n;
    nodes[p] = x;
    let mut y = nodes[n];
    y.prev = p;
    nodes[n] = y;
}

/// Undo an [`unlink`]. Valid because removals and restores are perfectly
/// nested: the node's own links were left untouched.
pub fn relink(nodes: &mut Vec<Node>, i: usize)
    requires
        i < old(nodes)@.len(),
        old(nodes)@[i as int].prev < old(nodes)@.len(),
        old(nodes)@[i as int].next < old(nodes)@.len(),
    ensures
        final(nodes)@ == relinked(old(nodes)@, i as int),
{
    let p: usize = nodes[i].prev;
    let n: usize = nodes[i].next;
    let mut x = nodes[p];
    x.next = i;
    nodes[p] = x;
    let mut y = nodes[n];
    y.prev = i;
    nodes[n] = y;
}

// ---- lists of live marks -------------------------------------------------

/// Whether a list holds exactly the live marks, in order.
pub open spec fn lists(tl: Seq<int>, done: Set<int>, l: Seq<int>) -> bool {
    &&& ascending(l, tl.len() as int)
    &&& forall|p: int| #[trigger] l.contains(p) <==> live(tl, done, p)
}

/// The neighbour after a live mark is the next live mark.
pub proof fn lemma_lists_next(tl: Seq<int>, done: Set<int>, l: Seq<int>, a: int)
    requires
        lists(tl, done, l),
        -1 <= a < l.len(),
    ensures
        after(l, a, tl.len() as int) == next_live(
            tl,
            done,
            if a < 0 {
                0
            } else {
                l[a] + 1
            },
        ),
{
    let from = if a < 0 {
        0
    } else {
        l[a] + 1
    };
    let q = next_live(tl, done, from);
    lemma_next_live(tl, done, from);
    if a + 1 < l.len() {
        let x = l[a + 1];
        assert(l.contains(x));
        assert(live(tl, done, x));
        assert(x >= from);
        if q < x {
            assert(l.contains(q));
            let b = choose|b: int| 0 <= b < l.len() && l[b] == q;
            if b > a + 1 {
                assert(l[a + 1] < l[b]);
            } else if b <= a && a >= 0 {
                if b < a {
                    assert(l[b] < l[a]);
                }
            }
        }
    } else if q < tl.len() {
        assert(l.contains(q));
        let b = choose|b: int| 0 <= b < l.len() && l[b] == q;
        if b < a {
            assert(l[b] < l[a]);
        }
    }
}

/// Removing the call and the return of an operation from the list of live
/// marks gives the list with that operation done.
pub proof fn lemma_lists_remove(
    tl: Seq<int>,
    done: Set<int>,
    l: Seq<int>,
    a: int,
    b: int,
    i: int,
)
    requires
        lists(tl, done, l),
        0 <= a < l.len(),
        0 <= b < l.len() - 1,
        tl[l[a]] == 2 * i,
        tl[l.remove(a)[b]] == 2 * i + 1,
        forall|p: int, q: int|
            0 <= p < tl.len() && 0 <= q < tl.len() && p != q ==> #[trigger] tl[p] != #[trigger] tl[q],
    ensures
        lists(tl, done.insert(i), l.remove(a).remove(b)),
{
    let m = l.remove(a);
    let r = m.remove(b);
    assert forall|x: int| 0 <= x < m.len() implies #[trigger] m[x] == l[if x < a {
        x
    } else {
        x + 1
    }] by {}
    assert forall|x: int| 0 <= x < r.len() implies #[trigger] r[x] == m[if x < b {
        x
    } else {
        x + 1
    }] by {}
    assert(ascending(m, tl.len() as int));
    assert(ascending(r, tl.len() as int));
    assert forall|p: int| #[trigger] r.contains(p) <==> live(tl, done.insert(i), p) by {
        if r.contains(p) {
            let x = choose|x: int| 0 <= x < r.len() && r[x] == p;
            let y = if x < b {
                x
            } else {
                x + 1
            };
            assert(m[y] == p);
            let z = if y < a {
                y
            } else {
                y + 1
            };
            assert(l[z] == p);
            assert(l.contains(p));
            assert(p != l[a] && p != m[b]) by {
                if z < a {
                    assert(l[z] < l[a]);
                } else {
                    assert(l[a] < l[z]);
                }
                if y < b {
                    assert(m[y] < m[b]);
                } else {
                    assert(m[b] < m[y]);
                }
            }
            assert(tl[p] != tl[l[a]]);
            assert(0 <= m[b] < tl.len());
            assert(tl[p] != tl[m[b]]);
        }
        if live(tl, done.insert(i), p) {
            assert(live(tl, done, p));
            assert(l.contains(p));
            let z = choose|z: int| 0 <= z < l.len() && l[z] == p;
            assert(z != a);
            let y = if z < a {
                z
            } else {
                z - 1
            };
            assert(m[y] == p);
            assert(y != b);
            let x = if y < b {
                y
            } else {
                y - 1
            };
            assert(r[x] == p);
        }
    }
}

} // verus!
