//! Graphs given by adjacency lists: reachability and depth-first postorder.

use vstd::prelude::*;

use crate::liveness::{count_false, lemma_count_false_bound, lemma_count_false_set};

verus! {

/// There is an edge from `a` to `b`.
pub open spec fn adj_edge(adj: Seq<Vec<usize>>, a: usize, b: usize) -> bool {
    a < adj.len() && adj[a as int]@.contains(b)
}

/// `p` is a path along edges.
pub open spec fn adj_path(adj: Seq<Vec<usize>>, p: Seq<usize>) -> bool {
    &&& p.len() >= 1
    &&& forall|i: int| 0 <= i < p.len() - 1 ==> #[trigger] adj_edge(adj, p[i], p[i + 1])
}

/// `to` can be reached from `from` in zero or more steps.
pub open spec fn adj_reachable(adj: Seq<Vec<usize>>, from: usize, to: usize) -> bool {
    exists|p: Seq<usize>| #[trigger] adj_path(adj, p) && p[0] == from && p.last() == to
}

/// Every edge leads to a node of the graph.
pub open spec fn adj_ok(adj: Seq<Vec<usize>>) -> bool {
    forall|a: int, j: int| 0 <= a < adj.len() && 0 <= j < adj[a]@.len() ==> #[trigger] adj[a]@[j] < adj.len()
}

pub proof fn lemma_reachable_refl(adj: Seq<Vec<usize>>, a: usize)
    ensures
        adj_reachable(adj, a, a),
{
    let p = seq![a];
    assert(adj_path(adj, p));
}

pub proof fn lemma_reachable_step(adj: Seq<Vec<usize>>, from: usize, x: usize, t: usize)
    requires
        adj_reachable(adj, from, x),
        adj_edge(adj, x, t),
    ensures
        adj_reachable(adj, from, t),
{
    let p = choose|p: Seq<usize>| #[trigger] adj_path(adj, p) && p[0] == from && p.last() == x;
    let q = p.push(t);
    assert forall|i: int| 0 <= i < q.len() - 1 implies #[trigger] adj_edge(adj, q[i], q[i + 1]) by {
        if i < p.len() - 1 {
            assert(q[i] == p[i] && q[i + 1] == p[i + 1]);
        } else {
            assert(q[i] == x);
        }
    }
    assert(adj_path(adj, q));
}

/// A node reachable from a node of the graph is a node of the graph.
pub proof fn lemma_adj_reachable_below(adj: Seq<Vec<usize>>, from: usize, to: usize)
    requires
        adj_ok(adj),
        from < adj.len(),
        adj_reachable(adj, from, to),
    ensures
        to < adj.len(),
{
    let p = choose|p: Seq<usize>| #[trigger] adj_path(adj, p) && p[0] == from && p.last() == to;
    if p.len() > 1 {
        let i = p.len() - 2;
        assert(adj_edge(adj, p[i], p[i + 1]));
        let a = p[i] as int;
        let j = choose|j: int| 0 <= j < adj[a]@.len() && adj[a]@[j] == p[i + 1];
        assert(adj[a]@[j] < adj.len());
    }
}

/// A set of nodes closed under edges holds every node on a path from one of its nodes.
pub proof fn lemma_closed_path(adj: Seq<Vec<usize>>, s: Set<usize>, p: Seq<usize>, k: int)
    requires
        adj_path(adj, p),
        s.contains(p[0]),
        forall|x: usize, t: usize| s.contains(x) && #[trigger] adj_edge(adj, x, t) ==> s.contains(t),
        0 <= k < p.len(),
    ensures
        s.contains(p[k]),
    decreases k,
{
    if k > 0 {
        lemma_closed_path(adj, s, p, k - 1);
        assert(adj_edge(adj, p[k - 1], p[k - 1 + 1]));
    }
}

/// Whether `x` is the node of some frame of the stack.
pub open spec fn on_stack(stack: Seq<(usize, usize)>, x: usize) -> bool {
    exists|f: int| 0 <= f < stack.len() && (#[trigger] stack[f]).0 == x
}

/// The invariant of the depth-first walk.
pub open spec fn dfs_ok(
    adj: Seq<Vec<usize>>,
    start: usize,
    visited: Seq<bool>,
    stack: Seq<(usize, usize)>,
    order: Seq<usize>,
) -> bool {
    &&& visited.len() == adj.len()
    &&& forall|x: usize|
        #![trigger visited[x as int]]
        #![trigger order.contains(x)]
        #![trigger on_stack(stack, x)]
        x < adj.len() ==> (visited[x as int] <==> (order.contains(x) || on_stack(stack, x)))
    &&& forall|x: usize| #![trigger order.contains(x)] #![trigger on_stack(stack, x)] order.contains(x) || on_stack(stack, x) ==> x < adj.len()
    &&& order.no_duplicates()
    &&& forall|f: int, g: int| 0 <= f < stack.len() && 0 <= g < stack.len() && f != g ==> (#[trigger] stack[f]).0
        != (#[trigger] stack[g]).0
    &&& forall|x: usize| #![trigger order.contains(x)] #![trigger on_stack(stack, x)] order.contains(x) ==> !on_stack(stack, x)
    &&& forall|x: usize| x < adj.len() && visited[x as int] ==> adj_reachable(adj, start, x)
    &&& forall|x: usize, j: int|
        order.contains(x) && 0 <= j < adj[x as int]@.len() ==> visited[#[trigger] adj[x as int]@[j] as int]
    &&& forall|f: int| 0 <= f < stack.len() ==> (#[trigger] stack[f]).1 <= adj[stack[f].0 as int]@.len()
    &&& forall|f: int, j: int|
        0 <= f < stack.len() && 0 <= j < stack[f].1 ==> visited[#[trigger] adj[stack[f].0 as int]@[j] as int]
    &&& stack.len() > 0 ==> stack[0].0 == start
    &&& stack.len() == 0 ==> order.len() > 0 && order.last() == start
}

/// Every node of `order` but `start` has an edge into it from a node that comes
/// later in `order`.
pub open spec fn parents_later(adj: Seq<Vec<usize>>, start: usize, order: Seq<usize>) -> bool {
    forall|i: int|
        0 <= i < order.len() && order[i] != start ==> exists|j: int| i < j < order.len() && #[trigger] adj_edge(adj, order[j], order[i])
}

/// Each frame of the stack was entered by an edge from the frame below it.
pub open spec fn frames_linked(adj: Seq<Vec<usize>>, stack: Seq<(usize, usize)>) -> bool {
    forall|f: int| 1 <= f < stack.len() ==> #[trigger] adj_edge(adj, stack[f - 1].0, stack[f].0)
}

/// Every finished node but `start` has an edge into it from a node on the stack
/// or from a node finished after it.
pub open spec fn parents_pending(adj: Seq<Vec<usize>>, start: usize, stack: Seq<(usize, usize)>, order: Seq<usize>) -> bool {
    forall|i: int|
        0 <= i < order.len() && order[i] != start ==> (exists|y: usize| on_stack(stack, y) && #[trigger] adj_edge(adj, y, order[i]))
            || (exists|j: int| i < j < order.len() && #[trigger] adj_edge(adj, order[j], order[i]))
}

/// The nodes reachable from `start`, in the order in which a depth-first walk
/// that follows each node's edges in order finishes them.
pub fn postorder(adj: &Vec<Vec<usize>>, start: usize) -> (order: Vec<usize>)
    requires
        adj_ok(adj@),
        start < adj@.len(),
    ensures
        order@.no_duplicates(),
        order@.len() > 0,
        order@.last() == start,
        forall|x: usize| #[trigger] order@.contains(x) <==> adj_reachable(adj@, start, x),
        parents_later(adj@, start, order@),
{
    let n = adj.len();
    let mut visited: Vec<bool> = Vec::new();
    let mut i: usize = 0;
    while i < n
        invariant
            n == adj@.len(),
            i <= n,
            visited@.len() == i,
            forall|j: int| 0 <= j < i ==> !visited@[j],
        decreases n - i,
    {
        visited.push(false);
        i = i + 1;
    }
    visited.set(start, true);
    let mut stack: Vec<(usize, usize)> = Vec::new();
    stack.push((start, 0));
    let mut order: Vec<usize> = Vec::new();
    proof {
        lemma_reachable_refl(adj@, start);
        assert(stack@[0] == (start, 0usize));
        assert forall|x: usize| x < adj@.len() implies (visited@[x as int] <==> (order@.contains(x) || on_stack(stack@, x))) by {
            if x == start {
                assert(stack@[0].0 == x);
            }
        }
    }
    while stack.len() > 0
        invariant
            n == adj@.len(),
            adj_ok(adj@),
            start < n,
            dfs_ok(adj@, start, visited@, stack@, order@),
            frames_linked(adj@, stack@),
            parents_pending(adj@, start, stack@, order@),
        decreases count_false(visited@), stack@.len(), adj@[stack@.last().0 as int]@.len() - stack@.last().1,
    {
        let top = stack.len() - 1;
        let (b, next) = stack[top];
        proof {
            assert(stack@[top as int] == (b, next));
            assert(on_stack(stack@, b));
            assert(b < n);
            assert(stack@[top as int].1 <= adj@[b as int]@.len());
        }
        if next < adj[b].len() {
            let t = adj[b][next];
            let ghost st0 = stack@;
            let ghost vis0 = visited@;
            stack.set(top, (b, next + 1));
            proof {
                assert(adj@[b as int]@[next as int] < n);
                assert forall|x: usize| on_stack(stack@, x) <==> on_stack(st0, x) by {
                    if on_stack(st0, x) {
                        let f = choose|f: int| 0 <= f < st0.len() && (#[trigger] st0[f]).0 == x;
                        assert(stack@[f].0 == x);
                    }
                    if on_stack(stack@, x) {
                        let f = choose|f: int| 0 <= f < stack@.len() && (#[trigger] stack@[f]).0 == x;
                        assert(st0[f].0 == x);
                    }
                }
            }
            if !visited[t] {
                let ghost st1 = stack@;
                proof {
                    assert(adj_edge(adj@, b, t)) by {
                        assert(adj@[b as int]@[next as int] == t);
                    }
                    assert(b < n && visited@[b as int]) by {
                        assert(st1[top as int].0 == b);
                    }
                    lemma_reachable_step(adj@, start, b, t);
                    lemma_count_false_set(visited@, t as int);
                }
                visited.set(t, true);
                stack.push((t, 0));
                proof {
                    assert forall|x: usize| on_stack(stack@, x) <==> (on_stack(st1, x) || x == t) by {
                        if on_stack(st1, x) {
                            let f = choose|f: int| 0 <= f < st1.len() && (#[trigger] st1[f]).0 == x;
                            assert(stack@[f].0 == x);
                        }
                        if x == t {
                            assert(stack@[st1.len() as int].0 == t);
                        }
                        if on_stack(stack@, x) {
                            let f = choose|f: int| 0 <= f < stack@.len() && (#[trigger] stack@[f]).0 == x;
                            if f < st1.len() {
                                assert(st1[f].0 == x);
                            }
                        }
                    }
                    assert forall|x: usize| order@.contains(x) || on_stack(stack@, x) implies x < adj@.len() by {
                        if on_stack(stack@, x) && x != t {
                            assert(on_stack(st1, x));
                            assert(on_stack(st0, x));
                        }
                    }
                    assert forall|f: int, g: int| 0 <= f < stack@.len() && 0 <= g < stack@.len() && f != g implies (#[trigger] stack@[f]).0
                        != (#[trigger] stack@[g]).0 by {
                        if f < st1.len() && g < st1.len() {
                            assert(stack@[f] == st1[f] && stack@[g] == st1[g]);
                        } else if f < st1.len() {
                            assert(on_stack(st1, stack@[f].0));
                        } else if g < st1.len() {
                            assert(on_stack(st1, stack@[g].0));
                        }
                    }
                    assert forall|f: int, j: int|
                        0 <= f < stack@.len() && 0 <= j < stack@[f].1 implies visited@[#[trigger] adj@[stack@[f].0 as int]@[j] as int] by {
                        if f < st1.len() {
                            assert(stack@[f] == st1[f]);
                            assert(on_stack(st1, st1[f].0));
                            assert(st1[f].0 == st0[f].0);
                            assert(on_stack(st0, st0[f].0));
                            assert(st1[f].0 < n);
                            assert(adj@[st1[f].0 as int]@[j] < n);
                            if f == top {
                                if j == next {
                                    assert(adj@[b as int]@[j] == t);
                                } else {
                                    assert(st0[f] == (b, next));
                                    assert(j < st0[f].1);
                                    assert(vis0[adj@[st0[f].0 as int]@[j] as int]);
                                }
                            } else {
                                assert(st1[f] == st0[f]);
                                assert(vis0[adj@[st0[f].0 as int]@[j] as int]);
                            }
                        }
                    }
                    assert forall|x: usize, j: int|
                        order@.contains(x) && 0 <= j < adj@[x as int]@.len() implies visited@[#[trigger] adj@[x as int]@[j] as int] by {
                        assert(vis0[adj@[x as int]@[j] as int]);
                    }
                    assert forall|f: int| 1 <= f < stack@.len() implies #[trigger] adj_edge(adj@, stack@[f - 1].0, stack@[f].0) by {
                        if f < st1.len() {
                            assert(stack@[f - 1] == st1[f - 1] && stack@[f] == st1[f]);
                            assert(st1[f - 1].0 == st0[f - 1].0 && st1[f].0 == st0[f].0);
                        } else {
                            assert(stack@[f - 1] == st1[top as int]);
                            assert(st1[top as int].0 == b);
                            assert(stack@[f].0 == t);
                        }
                    }
                    assert forall|i: int| 0 <= i < order@.len() && order@[i] != start implies (exists|y: usize|
                        on_stack(stack@, y) && #[trigger] adj_edge(adj@, y, order@[i])) || (exists|j: int|
                        i < j < order@.len() && #[trigger] adj_edge(adj@, order@[j], order@[i])) by {
                        if exists|y: usize| on_stack(st0, y) && #[trigger] adj_edge(adj@, y, order@[i]) {
                            let y = choose|y: usize| on_stack(st0, y) && #[trigger] adj_edge(adj@, y, order@[i]);
                            assert(on_stack(st1, y));
                            assert(on_stack(stack@, y));
                        }
                    }
                }
            } else {
                proof {
                    assert forall|x: usize| order@.contains(x) || on_stack(stack@, x) implies x < adj@.len() by {
                        if on_stack(stack@, x) {
                            assert(on_stack(st0, x));
                        }
                    }
                    assert forall|f: int, j: int|
                        0 <= f < stack@.len() && 0 <= j < stack@[f].1 implies visited@[#[trigger] adj@[stack@[f].0 as int]@[j] as int] by {
                        if f == top {
                            if j == next {
                                assert(adj@[b as int]@[j] == t);
                            } else {
                                assert(st0[f] == (b, next));
                                assert(j < st0[f].1);
                                assert(visited@[adj@[st0[f].0 as int]@[j] as int]);
                            }
                        } else {
                            assert(stack@[f] == st0[f]);
                            assert(visited@[adj@[st0[f].0 as int]@[j] as int]);
                        }
                    }
                    assert forall|f: int| 1 <= f < stack@.len() implies #[trigger] adj_edge(adj@, stack@[f - 1].0, stack@[f].0) by {
                        assert(stack@[f - 1].0 == st0[f - 1].0 && stack@[f].0 == st0[f].0);
                    }
                    assert forall|i: int| 0 <= i < order@.len() && order@[i] != start implies (exists|y: usize|
                        on_stack(stack@, y) && #[trigger] adj_edge(adj@, y, order@[i])) || (exists|j: int|
                        i < j < order@.len() && #[trigger] adj_edge(adj@, order@[j], order@[i])) by {
                        if exists|y: usize| on_stack(st0, y) && #[trigger] adj_edge(adj@, y, order@[i]) {
                            let y = choose|y: usize| on_stack(st0, y) && #[trigger] adj_edge(adj@, y, order@[i]);
                            assert(on_stack(stack@, y));
                        }
                    }
                }
            }
        } else {
            let ghost st0 = stack@;
            let ghost ord0 = order@;
            stack.pop();
            order.push(b);
            proof {
                assert(stack@ =~= st0.drop_last());
                assert forall|x: usize| on_stack(st0, x) <==> (on_stack(stack@, x) || x == b) by {
                    if on_stack(st0, x) {
                        let f = choose|f: int| 0 <= f < st0.len() && (#[trigger] st0[f]).0 == x;
                        if f < top {
                            assert(stack@[f].0 == x);
                        }
                    }
                    if on_stack(stack@, x) {
                        let f = choose|f: int| 0 <= f < stack@.len() && (#[trigger] stack@[f]).0 == x;
                        assert(st0[f].0 == x);
                    }
                    if x == b {
                        assert(st0[top as int].0 == b);
                    }
                }
                assert(!ord0.contains(b)) by {
                    assert(on_stack(st0, b)) by {
                        assert(st0[top as int].0 == b);
                    }
                }
                assert(!on_stack(stack@, b)) by {
                    if on_stack(stack@, b) {
                        let f = choose|f: int| 0 <= f < stack@.len() && (#[trigger] stack@[f]).0 == b;
                        assert(st0[f].0 == st0[top as int].0);
                    }
                }
                assert forall|x: usize| order@.contains(x) <==> (ord0.contains(x) || x == b) by {
                    if order@.contains(x) {
                        let k = choose|k: int| 0 <= k < order@.len() && order@[k] == x;
                        if k < ord0.len() {
                            assert(ord0[k] == x);
                        }
                    }
                    if ord0.contains(x) {
                        let k = choose|k: int| 0 <= k < ord0.len() && ord0[k] == x;
                        assert(order@[k] == x);
                    }
                    if x == b {
                        assert(order@[ord0.len() as int] == b);
                    }
                }
                assert forall|x: usize| order@.contains(x) || on_stack(stack@, x) implies x < adj@.len() by {
                    if on_stack(stack@, x) {
                        assert(on_stack(st0, x));
                    }
                    if order@.contains(x) && x != b {
                        assert(ord0.contains(x));
                    }
                }
                assert(order@.no_duplicates()) by {
                    assert forall|p: int, q: int| 0 <= p < order@.len() && 0 <= q < order@.len() && p != q implies order@[p] != order@[q] by {
                        if p < ord0.len() && q < ord0.len() {
                            assert(order@[p] == ord0[p] && order@[q] == ord0[q]);
                        } else if p < ord0.len() {
                            assert(ord0.contains(order@[p]));
                        } else if q < ord0.len() {
                            assert(ord0.contains(order@[q]));
                        }
                    }
                }
                assert forall|x: usize, j: int|
                    order@.contains(x) && 0 <= j < adj@[x as int]@.len() implies visited@[#[trigger] adj@[x as int]@[j] as int] by {
                    if x == b {
                        assert(st0[top as int].1 == next);
                    }
                }
                assert forall|f: int, j: int|
                    0 <= f < stack@.len() && 0 <= j < stack@[f].1 implies visited@[#[trigger] adj@[stack@[f].0 as int]@[j] as int] by {
                    assert(stack@[f] == st0[f]);
                }
                assert forall|f: int| 1 <= f < stack@.len() implies #[trigger] adj_edge(adj@, stack@[f - 1].0, stack@[f].0) by {
                    assert(stack@[f - 1] == st0[f - 1] && stack@[f] == st0[f]);
                    assert(adj_edge(adj@, st0[f - 1].0, st0[f].0));
                }
                assert forall|i: int| 0 <= i < order@.len() && order@[i] != start implies (exists|y: usize|
                    on_stack(stack@, y) && #[trigger] adj_edge(adj@, y, order@[i])) || (exists|j: int|
                    i < j < order@.len() && #[trigger] adj_edge(adj@, order@[j], order@[i])) by {
                    if i < ord0.len() {
                        assert(order@[i] == ord0[i]);
                        if exists|y: usize| on_stack(st0, y) && #[trigger] adj_edge(adj@, y, ord0[i]) {
                            let y = choose|y: usize| on_stack(st0, y) && #[trigger] adj_edge(adj@, y, ord0[i]);
                            if y == b {
                                assert(order@[ord0.len() as int] == b);
                                assert(adj_edge(adj@, order@[ord0.len() as int], order@[i]));
                            } else {
                                assert(on_stack(stack@, y));
                            }
                        } else {
                            let j = choose|j: int| i < j < ord0.len() && #[trigger] adj_edge(adj@, ord0[j], ord0[i]);
                            assert(order@[j] == ord0[j]);
                            assert(adj_edge(adj@, order@[j], order@[i]));
                        }
                    } else {
                        assert(order@[i] == b);
                        assert(top > 0) by {
                            if top == 0 {
                                assert(st0[0].0 == start);
                            }
                        }
                        assert(adj_edge(adj@, st0[top - 1].0, st0[top as int].0));
                        assert(stack@[top - 1] == st0[top - 1]);
                        assert(on_stack(stack@, st0[top - 1].0));
                    }
                }
                if stack@.len() == 0 {
                    assert(st0[0].0 == start);
                    assert(top == 0);
                }
            }
        }
        proof {
            assert(forall|x: usize| x < adj@.len() ==> (visited@[x as int] <==> (order@.contains(x) || on_stack(stack@, x))));
            assert(forall|x: usize| order@.contains(x) || on_stack(stack@, x) ==> x < adj@.len());
            assert(forall|x: usize| order@.contains(x) ==> !on_stack(stack@, x));
            assert(forall|x: usize| x < adj@.len() && visited@[x as int] ==> adj_reachable(adj@, start, x));
        }
    }
    proof {
        assert forall|i: int| 0 <= i < order@.len() && order@[i] != start implies exists|j: int|
            i < j < order@.len() && #[trigger] adj_edge(adj@, order@[j], order@[i]) by {
            if exists|y: usize| on_stack(stack@, y) && #[trigger] adj_edge(adj@, y, order@[i]) {
                let y = choose|y: usize| on_stack(stack@, y) && #[trigger] adj_edge(adj@, y, order@[i]);
                assert(on_stack(stack@, y));
            }
        }
        let s = Set::new(|x: usize| x < n && visited@[x as int]);
        assert forall|x: usize, t: usize| s.contains(x) && #[trigger] adj_edge(adj@, x, t) implies s.contains(t) by {
            assert(order@.contains(x));
            let j = choose|j: int| 0 <= j < adj@[x as int]@.len() && adj@[x as int]@[j] == t;
            assert(visited@[adj@[x as int]@[j] as int]);
        }
        assert forall|x: usize| #[trigger] order@.contains(x) <==> adj_reachable(adj@, start, x) by {
            if adj_reachable(adj@, start, x) {
                let p = choose|p: Seq<usize>| #[trigger] adj_path(adj@, p) && p[0] == start && p.last() == x;
                assert(s.contains(start)) by {
                    assert(order@.contains(start)) by {
                        assert(order@[order@.len() - 1] == start);
                    }
                }
                lemma_closed_path(adj@, s, p, p.len() - 1);
            }
            if order@.contains(x) {
                assert(visited@[x as int]);
            }
        }
    }
    order
}

} // verus!
