//! Depth-first numbering of a coupling graph.
use crate::coupling::{lemma_distinct_below, normalized, CouplingMap, Graph};
use vstd::prelude::*;
use vstd::set_lib::lemma_len_subset;

verus! {

/// A depth-first walk under way: the qubits visited so far in order, all
/// that were ever put on the stack, and the stack.
pub struct Walk {
    pub order: Seq<usize>,
    pub seen: Set<usize>,
    pub stack: Seq<usize>,
}

/// The unseen neighbors of `node` from `lo` up, in descending order.
pub open spec fn fresh_from(g: Graph, node: usize, seen: Set<usize>, lo: int) -> Seq<usize>
    decreases g.size - lo,
{
    if lo >= g.size {
        Seq::empty()
    } else {
        let rest = fresh_from(g, node, seen, lo + 1);
        if g.adjacent(node, lo as usize) && !seen.contains(lo as usize) {
            rest.push(lo as usize)
        } else {
            rest
        }
    }
}

/// Visits the qubit on top of the stack and stacks its unseen neighbors,
/// the smallest on top.
pub open spec fn walk_step(g: Graph, w: Walk) -> Walk {
    if w.stack.len() == 0 {
        w
    } else {
        let node = w.stack.last();
        Walk {
            order: w.order.push(node),
            seen: w.seen.union(g.neighbor_set(node)),
            stack: w.stack.drop_last() + fresh_from(g, node, w.seen, 0),
        }
    }
}

/// The walk from `start` after `steps` steps.
pub open spec fn walk(g: Graph, start: usize, steps: nat) -> Walk
    decreases steps,
{
    if steps == 0 {
        Walk { order: Seq::empty(), seen: set![start], stack: seq![start] }
    } else {
        walk_step(g, walk(g, start, (steps - 1) as nat))
    }
}

/// The graph on the positions of `order` that has the edges of `g`.
pub open spec fn renumbered(g: Graph, order: Seq<usize>) -> Graph {
    Graph {
        size: order.len(),
        edges: Set::new(
            |e: (usize, usize)|
                e.0 < e.1 < order.len() && g.adjacent(order[e.0 as int], order[e.1 as int]),
        ),
    }
}

proof fn lemma_fresh(g: Graph, node: usize, seen: Set<usize>, lo: int)
    requires
        g.wf(),
        0 <= lo,
        g.size <= usize::MAX,
    ensures
        fresh_from(g, node, seen, lo).no_duplicates(),
        forall|b: usize| #[trigger]
            fresh_from(g, node, seen, lo).contains(b) <==> b >= lo && g.adjacent(node, b)
                && !seen.contains(b),
    decreases g.size - lo,
{
    let all = fresh_from(g, node, seen, lo);
    if lo >= g.size {
        assert forall|b: usize| b >= lo implies !g.adjacent(node, b) by {
            assert(!g.edges.contains(normalized(node, b)));
        }
    } else {
        lemma_fresh(g, node, seen, lo + 1);
        let rest = fresh_from(g, node, seen, lo + 1);
        if g.adjacent(node, lo as usize) && !seen.contains(lo as usize) {
            assert(!rest.contains(lo as usize));
            assert forall|b: usize| #[trigger] all.contains(b) <==> b >= lo && g.adjacent(node, b)
                && !seen.contains(b) by {
                if b == lo {
                    assert(all[rest.len() as int] == b);
                } else if rest.contains(b) {
                    let i = choose|i: int| 0 <= i < rest.len() && rest[i] == b;
                    assert(all[i] == b);
                } else if all.contains(b) {
                    let i = choose|i: int| 0 <= i < all.len() && all[i] == b;
                    assert(i < rest.len() ==> rest[i] == b);
                }
            }
            assert forall|i: int, j: int| 0 <= i < all.len() && 0 <= j < all.len() && i != j implies all[i]
                != all[j] by {
                if i < rest.len() {
                    assert(rest.contains(rest[i]));
                }
                if j < rest.len() {
                    assert(rest.contains(rest[j]));
                }
            }
        }
    }
}

/// Some qubit of `order` before position `end` is a neighbor of `v`.
pub open spec fn has_earlier_neighbor(g: Graph, order: Seq<usize>, v: usize, end: int) -> bool {
    exists|k: int| 0 <= k < end && k < order.len() && g.adjacent(#[trigger] order[k], v)
}

/// What holds of every walk.
#[verifier::opaque]
pub open spec fn walk_inv(g: Graph, start: usize, w: Walk) -> bool {
    &&& (w.order + w.stack).no_duplicates()
    &&& forall|v: usize| #[trigger] w.seen.contains(v) <==> (w.order + w.stack).contains(v)
    &&& forall|i: int| 0 <= i < w.order.len() ==> #[trigger] w.order[i] < g.size
    &&& forall|i: int| 0 <= i < w.stack.len() ==> #[trigger] w.stack[i] < g.size
    &&& forall|i: int, b: usize|
        0 <= i < w.order.len() && #[trigger] g.adjacent(w.order[i], b) ==> w.seen.contains(b)
    &&& forall|i: int|
        0 <= i < w.order.len() ==> {
            ||| (i == 0 && #[trigger] w.order[i] == start)
            ||| (i > 0 && has_earlier_neighbor(g, w.order, w.order[i], i))
        }
    &&& forall|i: int|
        0 <= i < w.stack.len() ==> {
            ||| (w.order.len() == 0 && #[trigger] w.stack[i] == start)
            ||| has_earlier_neighbor(g, w.order, w.stack[i], w.order.len() as int)
        }
    &&& w.order.len() == 0 ==> w.stack == seq![start]
}

#[verifier::rlimit(40)]
proof fn lemma_walk_step(g: Graph, start: usize, w: Walk)
    requires
        g.wf(),
        g.size <= usize::MAX,
        walk_inv(g, start, w),
    ensures
        walk_inv(g, start, walk_step(g, w)),
{
    reveal(walk_inv);
    if w.stack.len() > 0 {
        let node = w.stack.last();
        let fresh = fresh_from(g, node, w.seen, 0);
        let n = walk_step(g, w);
        lemma_fresh(g, node, w.seen, 0);
        let all = w.order + w.stack;
        let m = w.order.len() as int;
        let low = m + w.stack.len() - 1;
        assert(all[low] == node);
        let all1 = n.order + n.stack;
        assert(all1.len() == all.len() + fresh.len());
        assert forall|i: int| 0 <= i < all1.len() implies #[trigger] all1[i] == (if i < m {
            w.order[i]
        } else if i == m {
            node
        } else if i < all.len() {
            w.stack[i - m - 1]
        } else {
            fresh[i - all.len()]
        }) by {}
        assert forall|i: int| 0 <= i < all1.len() implies (#[trigger] all1[i] == all[if i < m {
            i
        } else if i == m {
            low
        } else {
            i - 1
        }] || i >= all.len()) by {}
        assert forall|i: int, j: int| 0 <= i < all1.len() && 0 <= j < all1.len() && i != j implies all1[i]
            != all1[j] by {
            let pi = if i < m { i } else if i == m { low } else { i - 1 };
            let pj = if j < m { j } else if j == m { low } else { j - 1 };
            if i < all.len() && j < all.len() {
                assert(all1[i] == all[pi]);
                assert(all1[j] == all[pj]);
            } else if i < all.len() {
                assert(all1[i] == all[pi]);
                assert(all.contains(all[pi]));
                assert(fresh.contains(fresh[j - all.len()]));
            } else if j < all.len() {
                assert(all1[j] == all[pj]);
                assert(all.contains(all[pj]));
                assert(fresh.contains(fresh[i - all.len()]));
            }
        }
        assert forall|v: usize| #[trigger] n.seen.contains(v) <==> all1.contains(v) by {
            if n.seen.contains(v) {
                if w.seen.contains(v) {
                    assert(all.contains(v));
                    let i = choose|i: int| 0 <= i < all.len() && all[i] == v;
                    let k = if i < m { i } else if i == low { m } else { i + 1 };
                    assert(all1[k] == v);
                } else {
                    assert(fresh.contains(v));
                    let i = choose|i: int| 0 <= i < fresh.len() && fresh[i] == v;
                    assert(all1[all.len() + i] == v);
                }
            }
            if all1.contains(v) {
                let i = choose|i: int| 0 <= i < all1.len() && all1[i] == v;
                if i < all.len() {
                    let pi = if i < m { i } else if i == m { low } else { i - 1 };
                    assert(all[pi] == v);
                    assert(all.contains(v));
                } else {
                    assert(fresh.contains(fresh[i - all.len()]));
                }
            }
        }
        assert forall|i: int| 0 <= i < n.stack.len() implies #[trigger] n.stack[i] < g.size by {
            if i >= w.stack.len() - 1 {
                let b = fresh[i - (w.stack.len() - 1)];
                assert(fresh.contains(b));
                assert(g.edges.contains(normalized(node, b)));
            }
        }
        assert forall|i: int, b: usize| 0 <= i < n.order.len() && #[trigger] g.adjacent(
            n.order[i],
            b,
        ) implies n.seen.contains(b) by {
            if i < m {
                assert(g.adjacent(w.order[i], b));
            }
        }
        assert forall|i: int| 0 <= i < n.order.len() implies {
            ||| (i == 0 && #[trigger] n.order[i] == start)
            ||| (i > 0 && has_earlier_neighbor(g, n.order, n.order[i], i))
        } by {
            if i < m {
                if i > 0 {
                    let k = choose|k: int|
                        0 <= k < i && k < w.order.len() && g.adjacent(#[trigger] w.order[k], w.order[i]);
                    assert(g.adjacent(n.order[k], n.order[i]));
                }
            } else {
                assert(w.stack[w.stack.len() - 1] == node);
                if m > 0 {
                    let k = choose|k: int|
                        0 <= k < m && k < w.order.len() && g.adjacent(#[trigger] w.order[k], node);
                    assert(g.adjacent(n.order[k], node));
                }
            }
        }
        assert forall|i: int| 0 <= i < n.stack.len() implies has_earlier_neighbor(
            g,
            n.order,
            #[trigger] n.stack[i],
            n.order.len() as int,
        ) by {
            if i < w.stack.len() - 1 {
                assert(n.stack[i] == w.stack[i]);
                if m == 0 {
                    assert(w.stack.len() == 1);
                } else {
                    let k = choose|k: int|
                        0 <= k < m && k < w.order.len() && g.adjacent(
                            #[trigger] w.order[k],
                            w.stack[i],
                        );
                    assert(g.adjacent(n.order[k], n.stack[i]));
                }
            } else {
                let b = fresh[i - (w.stack.len() - 1)];
                assert(fresh.contains(b));
                assert(n.order[m] == node);
                assert(g.adjacent(n.order[m], b));
            }
        }
    }
}

pub proof fn lemma_walk(g: Graph, start: usize, steps: nat)
    requires
        g.wf(),
        g.size <= usize::MAX,
        start < g.size,
    ensures
        walk_inv(g, start, walk(g, start, steps)),
        walk(g, start, steps).order.len() <= steps,
        walk(g, start, steps).order.len() == steps || walk(g, start, steps).stack.len() == 0,
        walk(g, start, steps).order.no_duplicates(),
        forall|i: int|
            0 <= i < walk(g, start, steps).order.len() ==> #[trigger] walk(g, start, steps).order[i]
                < g.size,
    decreases steps,
{
    let w = walk(g, start, steps);
    if steps == 0 {
        reveal(walk_inv);
        assert(w.order + w.stack =~= seq![start]);
        assert(seq![start][0] == start);
    } else {
        lemma_walk(g, start, (steps - 1) as nat);
        lemma_walk_step(g, start, walk(g, start, (steps - 1) as nat));
    }
    reveal(walk_inv);
    assert(w.order.no_duplicates()) by {
        let all = w.order + w.stack;
        assert forall|i: int, j: int|
            0 <= i < w.order.len() && 0 <= j < w.order.len() && i != j implies w.order[i] != w.order[j] by {
            assert(all[i] == w.order[i]);
            assert(all[j] == w.order[j]);
        }
    }
}

/// A longer walk starts as a shorter one does.
proof fn lemma_walk_prefix(g: Graph, start: usize, steps: nat, more: nat)
    requires
        steps <= more,
    ensures
        walk(g, start, steps).order.is_prefix_of(walk(g, start, more).order),
    decreases more - steps,
{
    if steps < more {
        lemma_walk_prefix(g, start, steps, (more - 1) as nat);
        let a = walk(g, start, steps).order;
        let b = walk(g, start, (more - 1) as nat).order;
        let c = walk(g, start, more).order;
        assert(a =~= c.take(a.len() as int)) by {
            assert(a =~= b.take(a.len() as int));
            assert forall|i: int| 0 <= i < a.len() implies a[i] == c[i] by {
                assert(a[i] == b[i]);
            }
        }
    }
}

/// The numbering by a shorter walk gives the first qubits of that by a longer
/// one, and the edges between them.
pub proof fn lemma_renumbered_first(g: Graph, start: usize, steps: nat, more: nat)
    requires
        steps <= more,
        walk(g, start, steps).order.len() == steps,
    ensures
        renumbered(g, walk(g, start, steps).order) == renumbered(
            g,
            walk(g, start, more).order,
        ).first(steps),
        steps <= walk(g, start, more).order.len(),
{
    let a = walk(g, start, steps).order;
    let c = walk(g, start, more).order;
    lemma_walk_prefix(g, start, steps, more);
    assert forall|i: int| 0 <= i < steps implies a[i] == c[i] by {
        assert(a[i] == c.take(a.len() as int)[i]);
    }
    assert(renumbered(g, a).edges =~= renumbered(g, c).first(steps).edges);
}

proof fn lemma_walk_stuck(g: Graph, start: usize, steps: nat, more: nat)
    requires
        walk(g, start, steps).stack.len() == 0,
        steps <= more,
    ensures
        walk(g, start, more) == walk(g, start, steps),
    decreases more - steps,
{
    if steps < more {
        lemma_walk_stuck(g, start, steps, (more - 1) as nat);
    }
}

/// A qubit at the end of a path from the start has been visited once the
/// stack is empty.
proof fn lemma_walk_closed(g: Graph, start: usize, w: Walk, p: Seq<usize>, to: usize)
    requires
        walk_inv(g, start, w),
        w.stack.len() == 0,
        g.is_path(p, start, to),
    ensures
        w.order.contains(to),
    decreases p.len(),
{
    reveal(walk_inv);
    assert(w.order + w.stack =~= w.order);
    if p.len() == 1 {
        assert(w.order[0] == start);
    } else {
        let front = p.drop_last();
        assert forall|i: int| 1 <= i < front.len() implies #[trigger] g.linked(front, i) by {
            assert(g.linked(p, i));
        }
        lemma_walk_closed(g, start, w, front, front.last());
        let i = choose|i: int| 0 <= i < w.order.len() && w.order[i] == front.last();
        assert(g.linked(p, p.len() - 1));
        assert(g.adjacent(w.order[i], to));
    }
}

/// The walk visits as many qubits as asked for, as long as that many can be
/// reached.
pub proof fn lemma_walk_len(g: Graph, start: usize, steps: nat, some: Set<usize>)
    requires
        g.wf(),
        g.size <= usize::MAX,
        start < g.size,
        forall|v: usize| #[trigger] some.contains(v) ==> g.reachable(start, v),
        steps <= some.len(),
    ensures
        walk(g, start, steps).order.len() == steps,
{
    let w = walk(g, start, steps);
    lemma_walk(g, start, steps);
    if w.stack.len() == 0 {
        assert(some.subset_of(w.order.to_set())) by {
            assert forall|v: usize| #[trigger] some.contains(v) implies w.order.to_set().contains(
                v,
            ) by {
                let p = choose|p: Seq<usize>| g.is_path(p, start, v);
                lemma_walk_closed(g, start, w, p, v);
            }
        }
        w.order.unique_seq_to_set();
        lemma_len_subset(some, w.order.to_set());
    }
}

/// The walk visits every qubit that can be reached, and each once.
pub proof fn lemma_walk_all(g: Graph, start: usize)
    requires
        g.wf(),
        g.size <= usize::MAX,
        start < g.size,
    ensures
        walk(g, start, g.size).stack.len() == 0,
        forall|v: usize|
            #[trigger] walk(g, start, g.size).order.contains(v) <==> g.reachable(start, v),
{
    let w = walk(g, start, g.size);
    lemma_walk(g, start, g.size);
    reveal(walk_inv);
    if w.stack.len() > 0 {
        let all = w.order + w.stack;
        assert forall|i: int| 0 <= i < all.len() implies #[trigger] all[i] < g.size by {
            if i >= w.order.len() {
                assert(all[i] == w.stack[i - w.order.len()]);
            } else {
                assert(all[i] == w.order[i]);
            }
        }
        lemma_distinct_below(all, g.size);
    }
    assert forall|v: usize| #[trigger] w.order.contains(v) <==> g.reachable(start, v) by {
        if g.reachable(start, v) {
            let p = choose|p: Seq<usize>| g.is_path(p, start, v);
            lemma_walk_closed(g, start, w, p, v);
        }
        if w.order.contains(v) {
            let i = choose|i: int| 0 <= i < w.order.len() && w.order[i] == v;
            lemma_walk_reaches(g, start, w, i);
        }
    }
}

proof fn lemma_walk_reaches(g: Graph, start: usize, w: Walk, i: int)
    requires
        walk_inv(g, start, w),
        0 <= i < w.order.len(),
    ensures
        g.reachable(start, w.order[i]),
    decreases i,
{
    reveal(walk_inv);
    if i == 0 {
        assert(g.is_path(seq![start], start, w.order[i]));
    } else {
        assert(has_earlier_neighbor(g, w.order, w.order[i], i));
        let k = choose|k: int|
            0 <= k < i && k < w.order.len() && g.adjacent(#[trigger] w.order[k], w.order[i]);
        lemma_walk_reaches(g, start, w, k);
        lemma_reach_step(g, start, w.order[k], w.order[i]);
    }
}

/// One more edge.
pub proof fn lemma_reach_step(g: Graph, a: usize, b: usize, c: usize)
    requires
        g.reachable(a, b),
        g.adjacent(b, c),
    ensures
        g.reachable(a, c),
{
    let p = choose|p: Seq<usize>| g.is_path(p, a, b);
    let q = p.push(c);
    assert forall|i: int| 1 <= i < q.len() implies #[trigger] g.linked(q, i) by {
        if i < p.len() {
            assert(g.linked(p, i));
        }
    }
    assert(g.is_path(q, a, c));
}

pub proof fn lemma_reach_self(g: Graph, a: usize)
    ensures
        g.reachable(a, a),
{
    assert(g.is_path(seq![a], a, a));
}

/// Paths can be walked backwards.
pub proof fn lemma_reach_symmetric(g: Graph, a: usize, b: usize)
    requires
        g.reachable(a, b),
    ensures
        g.reachable(b, a),
{
    let p = choose|p: Seq<usize>| g.is_path(p, a, b);
    let q = p.reverse();
    assert forall|i: int| 1 <= i < q.len() implies #[trigger] g.linked(q, i) by {
        assert(g.linked(p, p.len() - i));
    }
    assert(g.is_path(q, b, a));
}

/// Paths can be joined.
pub proof fn lemma_reach_transitive(g: Graph, a: usize, b: usize, c: usize)
    requires
        g.reachable(a, b),
        g.reachable(b, c),
    ensures
        g.reachable(a, c),
{
    let p = choose|p: Seq<usize>| g.is_path(p, a, b);
    let q = choose|q: Seq<usize>| g.is_path(q, b, c);
    let r = p + q.drop_first();
    assert forall|i: int| 1 <= i < r.len() implies #[trigger] g.linked(r, i) by {
        if i < p.len() {
            assert(g.linked(p, i));
        } else {
            assert(g.linked(q, i - p.len() + 1));
        }
    }
    assert(g.is_path(r, a, c));
}

/// A depth-first prefix is connected: the first qubits of a walk form a
/// connected graph.
pub proof fn lemma_walk_connected(g: Graph, start: usize, steps: nat)
    requires
        g.wf(),
        g.size <= usize::MAX,
        start < g.size,
    ensures
        renumbered(g, walk(g, start, steps).order).connected(),
        renumbered(g, walk(g, start, steps).order).wf(),
{
    let order = walk(g, start, steps).order;
    let r = renumbered(g, order);
    lemma_walk(g, start, steps);
    lemma_distinct_below(order, g.size);
    assert forall|a: usize, b: usize| a < r.size && b < r.size implies #[trigger] r.reachable(a, b) by {
        lemma_walk_root(g, start, steps, a);
        lemma_walk_root(g, start, steps, b);
        lemma_reach_symmetric(r, 0, a);
        lemma_reach_transitive(r, a, 0, b);
    }
}

proof fn lemma_walk_root(g: Graph, start: usize, steps: nat, i: usize)
    requires
        g.wf(),
        g.size <= usize::MAX,
        start < g.size,
        i < walk(g, start, steps).order.len(),
    ensures
        renumbered(g, walk(g, start, steps).order).reachable(0, i),
    decreases i,
{
    let w = walk(g, start, steps);
    let r = renumbered(g, w.order);
    lemma_walk(g, start, steps);
    reveal(walk_inv);
    if i == 0 {
        lemma_reach_self(r, 0);
    } else {
        assert(has_earlier_neighbor(g, w.order, w.order[i as int], i as int));
        let k = choose|k: int|
            0 <= k < i && k < w.order.len() && g.adjacent(#[trigger] w.order[k], w.order[i as int]);
        lemma_walk_root(g, start, steps, k as usize);
        assert(r.adjacent(k as usize, i));
        lemma_reach_step(r, 0, k as usize, i);
    }
}

/// Renumbering by distinct qubits adds no neighbor.
pub proof fn lemma_renumbered_degree(g: Graph, order: Seq<usize>, q: usize, bound: Seq<usize>)
    requires
        g.wf(),
        order.no_duplicates(),
        q < order.len(),
        order.len() <= usize::MAX,
        forall|b: usize| #[trigger] g.adjacent(order[q as int], b) ==> bound.contains(b),
    ensures
        renumbered(g, order).neighbor_set(q).finite(),
        renumbered(g, order).neighbor_set(q).len() <= bound.len(),
    decreases bound.len(),
{
    let near = renumbered(g, order).neighbor_set(q);
    assert forall|b: usize| #[trigger] near.contains(b) implies b < order.len() && bound.contains(
        order[b as int],
    ) by {
        assert(renumbered(g, order).edges.contains(normalized(q, b)));
        assert(g.adjacent(order[q as int], order[b as int]));
    }
    lemma_image_bound(g, order, q, bound, near);
}

proof fn lemma_image_bound(g: Graph, order: Seq<usize>, q: usize, bound: Seq<usize>, near: Set<usize>)
    requires
        order.no_duplicates(),
        forall|b: usize| #[trigger] near.contains(b) ==> b < order.len() && bound.contains(order[b as int]),
    ensures
        near.finite(),
        near.len() <= bound.len(),
    decreases bound.len(),
{
    if bound.len() == 0 {
        assert(near =~= Set::empty());
    } else {
        let x = bound.last();
        let rest = bound.drop_last();
        if exists|b: usize| near.contains(b) && order[b as int] == x {
            let b = choose|b: usize| near.contains(b) && order[b as int] == x;
            assert forall|c: usize| #[trigger] near.remove(b).contains(c) implies c < order.len()
                && rest.contains(order[c as int]) by {
                assert(near.contains(c));
                let i = choose|i: int| 0 <= i < bound.len() && bound[i] == order[c as int];
                assert(i < rest.len());
                assert(rest[i] == order[c as int]);
            }
            lemma_image_bound(g, order, q, rest, near.remove(b));
            assert(near =~= near.remove(b).insert(b));
        } else {
            assert forall|c: usize| #[trigger] near.contains(c) implies c < order.len() && rest.contains(
                order[c as int],
            ) by {
                let i = choose|i: int| 0 <= i < bound.len() && bound[i] == order[c as int];
                assert(i < rest.len());
                assert(rest[i] == order[c as int]);
            }
            lemma_image_bound(g, order, q, rest, near);
        }
    }
}

impl CouplingMap {
    /// The number of qubits that have a neighbor.
    pub(crate) fn touched_count(&self) -> (r: usize)
        ensures
            r == self@.touched().len(),
            self@.touched().finite(),
    {
        let total = self.num_qubits();
        let ghost g = self@;
        let mut count: usize = 0;
        let mut v: usize = 0;
        let ghost mut found: Set<usize> = Set::empty();
        while v < total
            invariant
                g == self@,
                g.wf(),
                total == g.size,
                0 <= v <= total,
                count <= v,
                found.finite(),
                found.len() == count,
                forall|x: usize| #[trigger] found.contains(x) <==> x < v && g.touched().contains(x),
            decreases total - v,
        {
            let near = self.neighbors(v);
            if near.len() > 0 {
                proof {
                    assert(near@.contains(near@[0]));
                    assert(g.adjacent(v, near@[0]));
                    assert(g.touched().contains(v));
                    found = found.insert(v);
                }
                count = count + 1;
            } else {
                assert(!g.touched().contains(v)) by {
                    if g.touched().contains(v) {
                        let b = choose|b: usize| g.adjacent(v, b);
                        assert(near@.contains(b));
                    }
                }
            }
            v = v + 1;
        }
        proof {
            assert(found =~= g.touched()) by {
                assert forall|x: usize| #[trigger] g.touched().contains(x) implies x < total by {
                    let b = choose|b: usize| g.adjacent(x, b);
                    assert(g.edges.contains(normalized(x, b)));
                }
            }
        }
        count
    }

    /// The map on the first `limit` qubits of the depth-first walk from
    /// `start`, numbered in the order of the walk.
    pub(crate) fn dfs_map(&self, start: usize, limit: usize) -> (r: CouplingMap)
        requires
            start < self@.size,
        ensures
            r@ == renumbered(self@, walk(self@, start, limit as nat).order),
    {
        let total = self.num_qubits();
        let ghost g = self@;
        let mut order: Vec<usize> = Vec::new();
        let mut seen: Vec<bool> = vec![false; total];
        let mut stack: Vec<usize> = Vec::new();
        seen.set(start, true);
        stack.push(start);
        while order.len() < limit && stack.len() > 0
            invariant
                g == self@,
                g.wf(),
                total == g.size,
                start < total,
                order.len() <= limit,
                seen.len() == total,
                order@ == walk(g, start, order.len() as nat).order,
                stack@ == walk(g, start, order.len() as nat).stack,
                forall|v: usize|
                    v < total ==> #[trigger] seen@[v as int] == walk(
                        g,
                        start,
                        order.len() as nat,
                    ).seen.contains(v),
            decreases limit - order.len(),
        {
            let ghost w = walk(g, start, order.len() as nat);
            proof {
                lemma_walk(g, start, order.len() as nat);
                reveal(walk_inv);
            }
            let top: usize = stack.len() - 1;
            let node = stack[top];
            stack.truncate(top);
            let near = self.neighbors(node);
            let mut n: usize = near.len();
            let ghost mut lo: int = total as int;
            let ghost base = stack@;
            assert(base =~= w.stack.drop_last());
            assert(stack@ =~= base + fresh_from(g, node, w.seen, lo));
            while n > 0
                invariant
                    g == self@,
                    g.wf(),
                    total == g.size,
                    0 <= n <= near.len(),
                    0 <= lo <= total,
                    n > 0 ==> near@[n - 1] < lo,
                    n < near.len() ==> near@[n as int] == lo,
                    seen.len() == total,
                    stack@ == base + fresh_from(g, node, w.seen, lo),
                    forall|i: int, j: int|
                        0 <= i < j < near.len() ==> #[trigger] near@[i] < #[trigger] near@[j],
                    forall|b: usize| #[trigger] near@.contains(b) <==> g.adjacent(node, b),
                    forall|i: int| 0 <= i < near.len() ==> #[trigger] near@[i] < g.size,
                    forall|v: usize|
                        v < total ==> #[trigger] seen@[v as int] == (w.seen.contains(v) || (v >= lo
                            && g.adjacent(node, v))),
                    n == near.len() ==> lo == total,
                decreases n,
            {
                n = n - 1;
                let next = near[n];
                proof {
                    assert(near@.contains(next));
                    assert forall|b: usize| next < b < lo implies !g.adjacent(node, b) by {
                        if near@.contains(b) {
                            let k = choose|k: int| 0 <= k < near.len() && near@[k] == b;
                            assert(k > n);
                            if n + 1 < near.len() {
                                assert(near@[n + 1] == lo);
                                assert(k > n + 1 ==> near@[n + 1] < near@[k]);
                            }
                        }
                    }
                    lemma_fresh_gap(g, node, w.seen, next + 1, lo);
                }
                if !seen[next] {
                    seen.set(next, true);
                    stack.push(next);
                }
                proof {
                    lo = next as int;
                    assert(stack@ =~= base + fresh_from(g, node, w.seen, lo));
                }
            }
            proof {
                assert forall|b: usize| b < lo implies !g.adjacent(node, b) by {
                    if near@.contains(b) {
                        let k = choose|k: int| 0 <= k < near.len() && near@[k] == b;
                        if near.len() > 0 {
                            assert(k > 0 ==> near@[0] < near@[k]);
                        }
                    }
                }
                lemma_fresh_gap(g, node, w.seen, 0, lo);
            }
            order.push(node);
            proof {
                assert(walk(g, start, order.len() as nat) == walk_step(g, w));
                assert(order@ =~= walk_step(g, w).order);
            }
        }
        proof {
            if order.len() < limit {
                lemma_walk_stuck(g, start, order.len() as nat, limit as nat);
            }
        }
        self.renumber(&order)
    }

    /// The map on the positions of `order` that has the edges of this one.
    fn renumber(&self, order: &Vec<usize>) -> (r: CouplingMap)
        ensures
            r@ == renumbered(self@, order@),
    {
        let ghost g = self@;
        let mut list: Vec<(usize, usize)> = Vec::new();
        let mut a: usize = 0;
        while a < order.len()
            invariant
                g == self@,
                0 <= a <= order.len(),
                forall|i: int| 0 <= i < list.len() ==> renumbered(g, order@).edges.contains(#[trigger] list@[i]),
                forall|e: (usize, usize)|
                    e.0 < a && #[trigger] renumbered(g, order@).edges.contains(e) ==> list@.contains(e),
            decreases order.len() - a,
        {
            let mut b: usize = a + 1;
            while b < order.len()
                invariant
                    g == self@,
                    a < b <= order.len(),
                    forall|i: int|
                        0 <= i < list.len() ==> renumbered(g, order@).edges.contains(#[trigger] list@[i]),
                    forall|e: (usize, usize)|
                        (e.0 < a || (e.0 == a && e.1 < b)) && #[trigger] renumbered(
                            g,
                            order@,
                        ).edges.contains(e) ==> list@.contains(e),
                decreases order.len() - b,
            {
                if self.is_adjacent(order[a], order[b]) {
                    let ghost before = list@;
                    list.push((a, b));
                    proof {
                        assert(list@[before.len() as int] == (a, b));
                        assert forall|e: (usize, usize)|
                            (e.0 < a || (e.0 == a && e.1 < b + 1)) && #[trigger] renumbered(
                                g,
                                order@,
                            ).edges.contains(e) implies list@.contains(e) by {
                            if e != (a, b) {
                                assert(before.contains(e));
                                let i = choose|i: int| 0 <= i < before.len() && before[i] == e;
                                assert(list@[i] == e);
                            }
                        }
                    }
                }
                b = b + 1;
            }
            a = a + 1;
        }
        proof {
            assert forall|i: int| 0 <= i < list.len() implies crate::coupling::edge_ok(
                order.len(),
                #[trigger] list@[i],
            ) by {
                assert(renumbered(g, order@).edges.contains(list@[i]));
            }
            assert(crate::coupling::edge_set(list@) =~= renumbered(g, order@).edges) by {
                assert forall|e: (usize, usize)| #[trigger] renumbered(g, order@).edges.contains(
                    e,
                ) implies crate::coupling::edge_set(list@).contains(e) by {
                    assert(list@.contains(e));
                    let i = choose|i: int| 0 <= i < list.len() && list@[i] == e;
                    assert(normalized(list@[i].0, list@[i].1) == e);
                }
                assert forall|e: (usize, usize)| crate::coupling::edge_set(list@).contains(
                    e,
                ) implies #[trigger] renumbered(g, order@).edges.contains(e) by {
                    let i = choose|i: int|
                        0 <= i < list.len() && e == normalized((#[trigger] list@[i]).0, list@[i].1);
                    assert(renumbered(g, order@).edges.contains(list@[i]));
                }
            }
        }
        CouplingMap::collect(order.len(), &list)
    }
}

/// Qubits that are no neighbors leave no trace in the list of fresh ones.
proof fn lemma_fresh_gap(g: Graph, node: usize, seen: Set<usize>, lo: int, hi: int)
    requires
        0 <= lo <= hi <= g.size,
        g.size <= usize::MAX,
        forall|b: usize| lo <= b < hi ==> !g.adjacent(node, b),
    ensures
        fresh_from(g, node, seen, lo) == fresh_from(g, node, seen, hi),
    decreases hi - lo,
{
    if lo < hi {
        lemma_fresh_gap(g, node, seen, lo + 1, hi);
        assert(!g.adjacent(node, lo as usize));
    }
}

} // verus!
