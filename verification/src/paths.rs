//! Paths and walks through a graph, and the order in which a breadth-first
//! search meets them.
//!
//! A *path* is the sequence of nodes it visits. Where parallel edges or
//! several shortest paths exist, the search has to pick one, and what it picks
//! depends on the order of the neighbours. To say which, a *walk* names the
//! edges themselves: it is the sequence of positions, each in the neighbour
//! sequence of the node reached so far, of the edges that are taken from the
//! start node.

use vstd::prelude::*;
use crate::model::has_edge;

verus! {

/// `p` is a non-empty sequence of nodes, each joined to the next by an edge.
pub open spec fn is_path(g: Map<usize, Seq<usize>>, p: Seq<usize>) -> bool {
    &&& p.len() > 0
    &&& forall|i: int| 0 <= i < p.len() - 1 ==> has_edge(g, #[trigger] p[i], p[i + 1])
}

/// `p` is a path from `start` to `end`, both of them keys of the graph.
pub open spec fn connects(g: Map<usize, Seq<usize>>, p: Seq<usize>, start: usize, end: usize) -> bool {
    &&& is_path(g, p)
    &&& p[0] == start
    &&& p.last() == end
    &&& g.contains_key(start)
    &&& g.contains_key(end)
}

/// The node at which the walk `w` from `start` arrives.
pub open spec fn walk_end(g: Map<usize, Seq<usize>>, start: usize, w: Seq<int>) -> usize
    decreases w.len(),
{
    if w.len() == 0 {
        start
    } else {
        g[walk_end(g, start, w.drop_last())][w.last()]
    }
}

/// Every step of the walk `w` from `start` takes an edge that exists.
pub open spec fn walk_ok(g: Map<usize, Seq<usize>>, start: usize, w: Seq<int>) -> bool
    decreases w.len(),
{
    if w.len() == 0 {
        true
    } else {
        let from = walk_end(g, start, w.drop_last());
        &&& walk_ok(g, start, w.drop_last())
        &&& g.contains_key(from)
        &&& 0 <= w.last() < g[from].len()
    }
}

/// The nodes that the walk `w` from `start` visits, `start` first.
pub open spec fn walk_nodes(g: Map<usize, Seq<usize>>, start: usize, w: Seq<int>) -> Seq<usize>
    decreases w.len(),
{
    if w.len() == 0 {
        seq![start]
    } else {
        walk_nodes(g, start, w.drop_last()).push(walk_end(g, start, w))
    }
}

/// The order of discovery: a shorter walk comes before a longer one, and of
/// two walks of one length the one that takes the earlier edge where they
/// first part.
pub open spec fn walk_before(a: Seq<int>, b: Seq<int>) -> bool
    decreases a.len(),
{
    if a.len() != b.len() {
        a.len() < b.len()
    } else if a.len() == 0 {
        false
    } else {
        walk_before(a.drop_last(), b.drop_last()) || (a.drop_last() == b.drop_last() && a.last()
            < b.last())
    }
}

/// `w` is a walk from `start` to `end`, both of them keys of the graph.
pub open spec fn is_route(g: Map<usize, Seq<usize>>, start: usize, end: usize, w: Seq<int>) -> bool {
    &&& g.contains_key(start)
    &&& g.contains_key(end)
    &&& walk_ok(g, start, w)
    &&& walk_end(g, start, w) == end
}

/// `w` is the walk from `start` to `end` that comes before every other.
pub open spec fn is_first_route(
    g: Map<usize, Seq<usize>>,
    start: usize,
    end: usize,
    w: Seq<int>,
) -> bool {
    &&& is_route(g, start, end, w)
    &&& forall|v: Seq<int>| #[trigger] is_route(g, start, end, v) && v != w ==> walk_before(w, v)
}

/// No walk comes before itself.
pub proof fn lemma_before_irreflexive(a: Seq<int>)
    ensures
        !walk_before(a, a),
    decreases a.len(),
{
    if a.len() > 0 {
        lemma_before_irreflexive(a.drop_last());
    }
}

/// The order of discovery is transitive.
pub proof fn lemma_before_transitive(a: Seq<int>, b: Seq<int>, c: Seq<int>)
    requires
        walk_before(a, b),
        walk_before(b, c),
    ensures
        walk_before(a, c),
    decreases a.len(),
{
    if a.len() == b.len() && b.len() == c.len() && a.len() > 0 {
        if walk_before(a.drop_last(), b.drop_last()) && walk_before(b.drop_last(), c.drop_last()) {
            lemma_before_transitive(a.drop_last(), b.drop_last(), c.drop_last());
        }
    }
}

/// Of two different walks one comes before the other.
pub proof fn lemma_before_total(a: Seq<int>, b: Seq<int>)
    ensures
        a == b || walk_before(a, b) || walk_before(b, a),
    decreases a.len(),
{
    if a.len() == b.len() {
        if a.len() == 0 {
            assert(a =~= b);
        } else {
            lemma_before_total(a.drop_last(), b.drop_last());
            if a.drop_last() == b.drop_last() && a.last() == b.last() {
                assert(a =~= a.drop_last().push(a.last()));
                assert(b =~= b.drop_last().push(b.last()));
            }
        }
    }
}

/// No two walks come before each other.
pub proof fn lemma_before_asymmetric(a: Seq<int>, b: Seq<int>)
    requires
        walk_before(a, b),
    ensures
        !walk_before(b, a),
{
    if walk_before(b, a) {
        lemma_before_transitive(a, b, a);
        lemma_before_irreflexive(a);
    }
}

/// How two walks compare once each is extended by one edge.
pub proof fn lemma_before_push(a: Seq<int>, x: int, b: Seq<int>, y: int)
    ensures
        walk_before(a.push(x), b.push(y)) <==> walk_before(a, b) || (a == b && x < y),
{
    assert(a.push(x).drop_last() =~= a);
    assert(b.push(y).drop_last() =~= b);
    if a.len() != b.len() {
        assert(a != b);
    }
}

/// Where a walk of one more edge arrives, and when it is a walk at all.
pub proof fn lemma_walk_push(g: Map<usize, Seq<usize>>, start: usize, w: Seq<int>, x: int)
    ensures
        walk_end(g, start, w.push(x)) == g[walk_end(g, start, w)][x],
        walk_ok(g, start, w.push(x)) <==> walk_ok(g, start, w) && g.contains_key(
            walk_end(g, start, w),
        ) && 0 <= x < g[walk_end(g, start, w)].len(),
        walk_nodes(g, start, w.push(x)) == walk_nodes(g, start, w).push(
            g[walk_end(g, start, w)][x],
        ),
{
    assert(w.push(x).drop_last() =~= w);
}

/// The nodes of a walk: one more than its edges, from `start` to where it
/// arrives.
pub proof fn lemma_walk_nodes_shape(g: Map<usize, Seq<usize>>, start: usize, w: Seq<int>)
    ensures
        walk_nodes(g, start, w).len() == w.len() + 1,
        walk_nodes(g, start, w)[0] == start,
        walk_nodes(g, start, w).last() == walk_end(g, start, w),
    decreases w.len(),
{
    if w.len() > 0 {
        lemma_walk_nodes_shape(g, start, w.drop_last());
    }
}

/// The nodes of a walk form a path.
pub proof fn lemma_walk_is_path(g: Map<usize, Seq<usize>>, start: usize, w: Seq<int>)
    requires
        walk_ok(g, start, w),
    ensures
        is_path(g, walk_nodes(g, start, w)),
    decreases w.len(),
{
    lemma_walk_nodes_shape(g, start, w);
    if w.len() > 0 {
        let v = w.drop_last();
        lemma_walk_is_path(g, start, v);
        lemma_walk_nodes_shape(g, start, v);
        let p = walk_nodes(g, start, w);
        let from = walk_end(g, start, v);
        assert(g[from][w.last()] == walk_end(g, start, w));
        assert forall|i: int| 0 <= i < p.len() - 1 implies has_edge(g, #[trigger] p[i], p[i + 1]) by {
            if i < p.len() - 2 {
                assert(p[i] == walk_nodes(g, start, v)[i]);
                assert(p[i + 1] == walk_nodes(g, start, v)[i + 1]);
            } else {
                assert(p[i] == from);
                assert(p[i + 1] == walk_end(g, start, w));
            }
        }
    }
}

/// Every path is the sequence of nodes of some walk.
pub proof fn lemma_path_has_walk(g: Map<usize, Seq<usize>>, p: Seq<usize>) -> (w: Seq<int>)
    requires
        is_path(g, p),
    ensures
        walk_ok(g, p[0], w),
        walk_nodes(g, p[0], w) == p,
        walk_end(g, p[0], w) == p.last(),
        w.len() == p.len() - 1,
    decreases p.len(),
{
    if p.len() == 1 {
        let w = Seq::<int>::empty();
        assert(walk_nodes(g, p[0], w) =~= p);
        w
    } else {
        let q = p.drop_last();
        assert forall|i: int| 0 <= i < q.len() - 1 implies has_edge(g, #[trigger] q[i], q[i + 1]) by {
            assert(q[i] == p[i]);
            assert(q[i + 1] == p[i + 1]);
        }
        let v = lemma_path_has_walk(g, q);
        let from = q.last();
        assert(from == p[p.len() - 2]);
        assert(has_edge(g, p[p.len() - 2], p[p.len() - 2 + 1]));
        let x = choose|x: int| 0 <= x < g[from].len() && g[from][x] == p.last();
        lemma_walk_push(g, p[0], v, x);
        assert(walk_nodes(g, p[0], v.push(x)) =~= p);
        v.push(x)
    }
}

} // verus!
