//! What a breadth-first search knows while it runs, and why that suffices.
//!
//! The search keeps the nodes it has met in the order in which it met them
//! (`order`), for each of them the node it was met from (`prev`), and, in the
//! proof only, the walk by which it was met (`walk`). `front` is the walk that
//! the search looks at next: every walk before it has been looked at.

use vstd::prelude::*;
use crate::model::degree;
use crate::paths::{
    connects, is_first_route, is_route, lemma_before_asymmetric, lemma_before_irreflexive,
    lemma_before_push, lemma_before_total, lemma_before_transitive, lemma_path_has_walk,
    lemma_walk_is_path, lemma_walk_nodes_shape, lemma_walk_push, walk_before, walk_end,
    walk_nodes, walk_ok,
};

verus! {

/// `p` is a path from `start` to `end`, and no path between them is shorter.
pub open spec fn is_shortest_path(
    g: Map<usize, Seq<usize>>,
    start: usize,
    end: usize,
    p: Seq<usize>,
) -> bool {
    &&& connects(g, p, start, end)
    &&& forall|q: Seq<usize>| #[trigger] connects(g, q, start, end) ==> p.len() <= q.len()
}

/// `p` is the path that a breadth-first search from `start` finds to `end`:
/// the nodes of the first walk, in the order of discovery, that leads there.
pub open spec fn is_search_path(
    g: Map<usize, Seq<usize>>,
    start: usize,
    end: usize,
    p: Seq<usize>,
) -> bool {
    exists|w: Seq<int>| #[trigger] is_first_route(g, start, end, w) && p == walk_nodes(g, start, w)
}

/// The walk by which the node at place `a` of `order` was met.
pub open spec fn walk_at(order: Seq<usize>, walk: Map<usize, Seq<int>>, a: int) -> Seq<int> {
    walk[order[a]]
}

/// The node `v` was met by a walk that leads to it, one edge after the node
/// that `prev` names.
pub open spec fn reached(
    g: Map<usize, Seq<usize>>,
    start: usize,
    prev: Map<usize, Option<usize>>,
    walk: Map<usize, Seq<int>>,
    v: usize,
) -> bool {
    &&& walk.contains_key(v)
    &&& walk_ok(g, start, walk[v])
    &&& walk_end(g, start, walk[v]) == v
    &&& v == start ==> prev[v] is None && walk[v].len() == 0
    &&& v != start ==> match prev[v] {
        Some(p) => prev.contains_key(p) && walk[v].len() > 0 && walk[v].drop_last() == walk[p],
        None => false,
    }
}

/// The node at which the walk `w` arrives was met, and by no later walk.
pub open spec fn covered(
    g: Map<usize, Seq<usize>>,
    start: usize,
    prev: Map<usize, Option<usize>>,
    walk: Map<usize, Seq<int>>,
    w: Seq<int>,
) -> bool {
    let v = walk_end(g, start, w);
    prev.contains_key(v) && !walk_before(w, walk[v])
}

/// The nodes that were met are those of `order`.
pub open spec fn known(order: Seq<usize>, prev: Map<usize, Option<usize>>) -> bool {
    forall|v: usize| #[trigger] prev.contains_key(v) <==> order.contains(v)
}

/// Every node that was met was met by a walk that leads to it.
pub open spec fn all_reached(
    g: Map<usize, Seq<usize>>,
    start: usize,
    prev: Map<usize, Option<usize>>,
    walk: Map<usize, Seq<int>>,
) -> bool {
    forall|v: usize| #[trigger] prev.contains_key(v) ==> reached(g, start, prev, walk, v)
}

/// The nodes were met in the order of their walks.
pub open spec fn in_order(order: Seq<usize>, walk: Map<usize, Seq<int>>) -> bool {
    forall|a: int, b: int|
        0 <= a < b < order.len() ==> walk_before(
            #[trigger] walk_at(order, walk, a),
            #[trigger] walk_at(order, walk, b),
        )
}

/// Every node was met by a walk before `front`.
pub open spec fn all_behind(order: Seq<usize>, walk: Map<usize, Seq<int>>, front: Seq<int>) -> bool {
    forall|a: int| 0 <= a < order.len() ==> walk_before(#[trigger] walk_at(order, walk, a), front)
}

/// Every walk before `front` leads to a node that was met, and by no later
/// walk.
pub open spec fn all_covered(
    g: Map<usize, Seq<usize>>,
    start: usize,
    prev: Map<usize, Option<usize>>,
    walk: Map<usize, Seq<int>>,
    front: Seq<int>,
) -> bool {
    forall|w: Seq<int>|
        walk_ok(g, start, w) && walk_before(w, front) ==> #[trigger] covered(
            g,
            start,
            prev,
            walk,
            w,
        )
}

/// The invariant of the search.
pub open spec fn search_inv(
    g: Map<usize, Seq<usize>>,
    start: usize,
    order: Seq<usize>,
    prev: Map<usize, Option<usize>>,
    walk: Map<usize, Seq<int>>,
    front: Seq<int>,
) -> bool {
    &&& order.len() > 0
    &&& order[0] == start
    &&& order.no_duplicates()
    &&& known(order, prev)
    &&& all_reached(g, start, prev, walk)
    &&& in_order(order, walk)
    &&& all_behind(order, walk, front)
    &&& all_covered(g, start, prev, walk, front)
}

/// The search is at the node at place `head` and looks at its edge `i` next.
pub open spec fn search_at(
    g: Map<usize, Seq<usize>>,
    start: usize,
    order: Seq<usize>,
    prev: Map<usize, Option<usize>>,
    walk: Map<usize, Seq<int>>,
    front: Seq<int>,
    head: int,
    i: int,
) -> bool {
    &&& search_inv(g, start, order, prev, walk, front)
    &&& 0 <= head < order.len()
    &&& 0 <= i <= degree(g, order[head])
    &&& front == walk[order[head]].push(i)
}

/// The place of a node that was met.
proof fn lemma_place(
    g: Map<usize, Seq<usize>>,
    start: usize,
    order: Seq<usize>,
    prev: Map<usize, Option<usize>>,
    walk: Map<usize, Seq<int>>,
    front: Seq<int>,
    v: usize,
) -> (b: int)
    requires
        search_inv(g, start, order, prev, walk, front),
        prev.contains_key(v),
    ensures
        0 <= b < order.len(),
        order[b] == v,
        walk_at(order, walk, b) == walk[v],
        walk_before(walk[v], front),
        reached(g, start, prev, walk, v),
{
    assert(order.contains(v));
    let b = choose|b: int| 0 <= b < order.len() && order[b] == v;
    assert(walk_before(walk_at(order, walk, b), front));
    b
}

/// Between one edge of a node and the next lies no other walk.
proof fn lemma_between(w: Seq<int>, v: Seq<int>, i: int)
    requires
        0 <= i,
        !walk_before(v, w.push(i)),
        walk_before(v, w.push(i + 1)),
    ensures
        v == w.push(i),
{
    lemma_before_total(v, w.push(i));
    if v != w.push(i) {
        assert(walk_before(w.push(i), v));
        assert(v.len() == w.len() + 1);
        let d = v.drop_last();
        assert(v =~= d.push(v.last()));
        lemma_before_push(w, i, d, v.last());
        lemma_before_push(d, v.last(), w, i + 1);
        if walk_before(w, d) {
            if walk_before(d, w) {
                lemma_before_asymmetric(w, d);
            } else {
                lemma_before_irreflexive(w);
            }
        } else {
            if walk_before(d, w) {
                lemma_before_irreflexive(w);
            }
        }
    }
}

/// The search begins at `start`, with nothing else met.
pub proof fn lemma_search_begins(g: Map<usize, Seq<usize>>, start: usize)
    requires
        g.contains_key(start),
    ensures
        search_at(
            g,
            start,
            seq![start],
            map![start => None::<usize>],
            map![start => Seq::<int>::empty()],
            Seq::<int>::empty().push(0),
            0,
            0,
        ),
{
    let order = seq![start];
    let prev = map![start => None::<usize>];
    let walk = map![start => Seq::<int>::empty()];
    let front = Seq::<int>::empty().push(0);
    assert(order[0] == start);
    assert forall|v: usize| #[trigger] prev.contains_key(v) <==> order.contains(v) by {
        if v == start {
            assert(order[0] == v);
        }
    }
    assert forall|w: Seq<int>| walk_ok(g, start, w) && walk_before(w, front) implies #[trigger] covered(
        g,
        start,
        prev,
        walk,
        w,
    ) by {
        if w.len() == 0 {
            assert(w =~= Seq::<int>::empty());
            lemma_before_irreflexive(w);
        } else {
            assert(w.len() == 1);
            assert(front.drop_last() =~= Seq::<int>::empty());
            assert(w.drop_last() =~= Seq::<int>::empty());
            lemma_before_irreflexive(Seq::<int>::empty());
            assert(false);
        }
    }
    assert forall|a: int| 0 <= a < order.len() implies walk_before(
        #[trigger] walk_at(order, walk, a),
        front,
    ) by {
        assert(order[a] == start);
    }
}

/// The edge that the search looks at leads to a node that was met before:
/// the search passes on to the next edge.
pub proof fn lemma_search_passes(
    g: Map<usize, Seq<usize>>,
    start: usize,
    order: Seq<usize>,
    prev: Map<usize, Option<usize>>,
    walk: Map<usize, Seq<int>>,
    front: Seq<int>,
    head: int,
    i: int,
)
    requires
        search_at(g, start, order, prev, walk, front, head, i),
        i < degree(g, order[head]),
        prev.contains_key(g[order[head]][i]),
    ensures
        search_at(g, start, order, prev, walk, walk[order[head]].push(i + 1), head, i + 1),
{
    let u = order[head];
    let base = walk[u];
    let next = base.push(i + 1);
    let v = g[u][i];
    lemma_before_push(base, i, base, i + 1);
    assert forall|a: int| 0 <= a < order.len() implies walk_before(
        #[trigger] walk_at(order, walk, a),
        next,
    ) by {
        lemma_before_transitive(walk_at(order, walk, a), front, next);
    }
    assert forall|w: Seq<int>| walk_ok(g, start, w) && walk_before(w, next) implies #[trigger] covered(
        g,
        start,
        prev,
        walk,
        w,
    ) by {
        if !walk_before(w, front) {
            lemma_between(base, w, i);
            assert(prev.contains_key(u)) by {
                assert(order.contains(u));
            }
            lemma_walk_push(g, start, base, i);
            let b = lemma_place(g, start, order, prev, walk, front, v);
            lemma_before_asymmetric(walk[v], front);
        }
    }
}

/// Meeting a new node keeps `order` and `prev` in step.
proof fn lemma_meets_known(order: Seq<usize>, prev: Map<usize, Option<usize>>, v: usize, u: usize)
    requires
        known(order, prev),
        order.no_duplicates(),
        !prev.contains_key(v),
    ensures
        known(order.push(v), prev.insert(v, Some(u))),
        order.push(v).no_duplicates(),
{
    let order2 = order.push(v);
    let prev2 = prev.insert(v, Some(u));
    assert forall|a: int, b: int| 0 <= a < order2.len() && 0 <= b < order2.len() && a
        != b implies order2[a] != order2[b] by {
        if a == order.len() {
            assert(order.contains(order[b]));
        } else if b == order.len() {
            assert(order.contains(order[a]));
        }
    }
    assert forall|x: usize| #[trigger] prev2.contains_key(x) <==> order2.contains(x) by {
        if x == v {
            assert(order2[order.len() as int] == v);
        } else if prev.contains_key(x) {
            assert(order.contains(x));
            let b = choose|b: int| 0 <= b < order.len() && order[b] == x;
            assert(order2[b] == x);
        } else if order2.contains(x) {
            let b = choose|b: int| 0 <= b < order2.len() && order2[b] == x;
            assert(order[b] == x);
            assert(order.contains(x));
        }
    }
}

/// Meeting a new node leaves the walks of the others as they were.
proof fn lemma_meets_walk_at(
    order: Seq<usize>,
    prev: Map<usize, Option<usize>>,
    walk: Map<usize, Seq<int>>,
    v: usize,
    w: Seq<int>,
)
    requires
        known(order, prev),
        !prev.contains_key(v),
    ensures
        forall|a: int|
            0 <= a < order.len() ==> #[trigger] walk_at(order.push(v), walk.insert(v, w), a)
                == walk_at(order, walk, a),
        walk_at(order.push(v), walk.insert(v, w), order.len() as int) == w,
{
    assert forall|a: int| 0 <= a < order.len() implies #[trigger] walk_at(
        order.push(v),
        walk.insert(v, w),
        a,
    ) == walk_at(order, walk, a) by {
        assert(order.contains(order[a]));
    }
}

/// Meeting a new node by a walk that leads to it keeps every node reached.
proof fn lemma_meets_reached(
    g: Map<usize, Seq<usize>>,
    start: usize,
    prev: Map<usize, Option<usize>>,
    walk: Map<usize, Seq<int>>,
    u: usize,
    v: usize,
    w: Seq<int>,
)
    requires
        all_reached(g, start, prev, walk),
        prev.contains_key(start),
        prev.contains_key(u),
        !prev.contains_key(v),
        walk_ok(g, start, w),
        walk_end(g, start, w) == v,
        w.len() > 0,
        w.drop_last() == walk[u],
    ensures
        all_reached(g, start, prev.insert(v, Some(u)), walk.insert(v, w)),
{
    let prev2 = prev.insert(v, Some(u));
    let walk2 = walk.insert(v, w);
    assert forall|x: usize| #[trigger] prev2.contains_key(x) implies reached(
        g,
        start,
        prev2,
        walk2,
        x,
    ) by {
        if x != v {
            assert(reached(g, start, prev, walk, x));
        } else {
            assert(reached(g, start, prev, walk, u));
        }
    }
}

/// Meeting a new node by the walk `front` keeps the nodes in the order of
/// their walks, all of them before the walk after `front`.
proof fn lemma_meets_order(
    order: Seq<usize>,
    prev: Map<usize, Option<usize>>,
    walk: Map<usize, Seq<int>>,
    v: usize,
    front: Seq<int>,
    next: Seq<int>,
)
    requires
        known(order, prev),
        !prev.contains_key(v),
        in_order(order, walk),
        all_behind(order, walk, front),
        walk_before(front, next),
    ensures
        in_order(order.push(v), walk.insert(v, front)),
        all_behind(order.push(v), walk.insert(v, front), next),
{
    let order2 = order.push(v);
    let walk2 = walk.insert(v, front);
    lemma_meets_walk_at(order, prev, walk, v, front);
    assert forall|a: int, b: int| 0 <= a < b < order2.len() implies walk_before(
        #[trigger] walk_at(order2, walk2, a),
        #[trigger] walk_at(order2, walk2, b),
    ) by {
        assert(walk_at(order2, walk2, a) == walk_at(order, walk, a));
        if b < order.len() {
            assert(walk_at(order2, walk2, b) == walk_at(order, walk, b));
        } else {
            assert(walk_before(walk_at(order, walk, a), front));
        }
    }
    assert forall|a: int| 0 <= a < order2.len() implies walk_before(
        #[trigger] walk_at(order2, walk2, a),
        next,
    ) by {
        if a < order.len() {
            assert(walk_at(order2, walk2, a) == walk_at(order, walk, a));
            lemma_before_transitive(walk_at(order, walk, a), front, next);
        }
    }
}

/// Meeting the node to which `base.push(i)` leads covers every walk before
/// `base.push(i + 1)`.
proof fn lemma_meets_covered(
    g: Map<usize, Seq<usize>>,
    start: usize,
    prev: Map<usize, Option<usize>>,
    walk: Map<usize, Seq<int>>,
    u: usize,
    v: usize,
    base: Seq<int>,
    i: int,
)
    requires
        all_covered(g, start, prev, walk, base.push(i)),
        !prev.contains_key(v),
        walk_end(g, start, base.push(i)) == v,
        0 <= i,
    ensures
        all_covered(
            g,
            start,
            prev.insert(v, Some(u)),
            walk.insert(v, base.push(i)),
            base.push(i + 1),
        ),
{
    let front = base.push(i);
    let prev2 = prev.insert(v, Some(u));
    let walk2 = walk.insert(v, front);
    assert forall|w: Seq<int>|
        walk_ok(g, start, w) && walk_before(w, base.push(i + 1)) implies #[trigger] covered(
        g,
        start,
        prev2,
        walk2,
        w,
    ) by {
        if walk_before(w, front) {
            assert(covered(g, start, prev, walk, w));
        } else {
            lemma_between(base, w, i);
            lemma_before_irreflexive(front);
        }
    }
}

/// The edge that the search looks at leads to a node that was not met
/// before: it is met now, by the first walk that leads to it.
pub proof fn lemma_search_meets(
    g: Map<usize, Seq<usize>>,
    start: usize,
    order: Seq<usize>,
    prev: Map<usize, Option<usize>>,
    walk: Map<usize, Seq<int>>,
    front: Seq<int>,
    head: int,
    i: int,
)
    requires
        search_at(g, start, order, prev, walk, front, head, i),
        i < degree(g, order[head]),
        !prev.contains_key(g[order[head]][i]),
    ensures
        search_at(
            g,
            start,
            order.push(g[order[head]][i]),
            prev.insert(g[order[head]][i], Some(order[head])),
            walk.insert(g[order[head]][i], front),
            walk[order[head]].push(i + 1),
            head,
            i + 1,
        ),
        walk_ok(g, start, front),
        walk_end(g, start, front) == g[order[head]][i],
        forall|w: Seq<int>|
            walk_ok(g, start, w) && #[trigger] walk_end(g, start, w) == g[order[head]][i] && w
                != front ==> walk_before(front, w),
{
    let u = order[head];
    let base = walk[u];
    let next = base.push(i + 1);
    let v = g[u][i];
    assert(prev.contains_key(u)) by {
        assert(order.contains(u));
    }
    assert(prev.contains_key(start)) by {
        assert(order.contains(order[0]));
    }
    assert(reached(g, start, prev, walk, u));
    lemma_walk_push(g, start, base, i);
    lemma_before_push(base, i, base, i + 1);
    assert(front.drop_last() =~= base);

    assert forall|w: Seq<int>|
        walk_ok(g, start, w) && #[trigger] walk_end(g, start, w) == v && w
            != front implies walk_before(front, w) by {
        lemma_before_total(w, front);
        if walk_before(w, front) {
            assert(covered(g, start, prev, walk, w));
        }
    }
    lemma_meets_known(order, prev, v, u);
    lemma_meets_reached(g, start, prev, walk, u, v, front);
    lemma_meets_order(order, prev, walk, v, front, next);
    lemma_meets_covered(g, start, prev, walk, u, v, base, i);
    assert(order.push(v)[head] == u);
    assert(order.push(v)[0] == start);
    assert(walk.insert(v, front)[u] == base);
}

/// An edge of a node at or before the place of the search leads to a node
/// that was met, and by no later walk.
proof fn lemma_edge_covered(
    g: Map<usize, Seq<usize>>,
    start: usize,
    order: Seq<usize>,
    prev: Map<usize, Option<usize>>,
    walk: Map<usize, Seq<int>>,
    front: Seq<int>,
    head: int,
    b: int,
    k: int,
)
    requires
        search_at(g, start, order, prev, walk, front, head, degree(g, order[head]) as int),
        0 <= b <= head,
        g.contains_key(order[b]),
        0 <= k < g[order[b]].len(),
    ensures
        covered(g, start, prev, walk, walk[order[b]].push(k)),
        walk_end(g, start, walk[order[b]].push(k)) == g[order[b]][k],
{
    let x = order[b];
    let base = walk[order[head]];
    assert(prev.contains_key(x)) by {
        assert(order.contains(x));
    }
    assert(reached(g, start, prev, walk, x));
    lemma_walk_push(g, start, walk[x], k);
    lemma_before_push(walk[x], k, base, degree(g, order[head]) as int);
    if b < head {
        assert(walk_before(walk_at(order, walk, b), walk_at(order, walk, head)));
    }
}

/// Walks that lie before the end of one node's edges lie before the first
/// edge of a later node.
proof fn lemma_advances_behind(
    order: Seq<usize>,
    walk: Map<usize, Seq<int>>,
    base: Seq<int>,
    n: int,
    base2: Seq<int>,
)
    requires
        all_behind(order, walk, base.push(n)),
        walk_before(base, base2),
    ensures
        all_behind(order, walk, base2.push(0)),
{
    assert forall|a: int| 0 <= a < order.len() implies walk_before(
        #[trigger] walk_at(order, walk, a),
        base2.push(0),
    ) by {
        let wa = walk_at(order, walk, a);
        assert(walk_before(wa, base.push(n)));
        if wa.len() > 0 {
            let d = wa.drop_last();
            assert(wa =~= d.push(wa.last()));
            lemma_before_push(d, wa.last(), base, n);
            lemma_before_push(d, wa.last(), base2, 0);
            if walk_before(d, base) {
                lemma_before_transitive(d, base, base2);
            }
        }
    }
}

/// A node whose walk is not after `p`, where `p` is before the walk of the
/// node at place `head + 1`, has its place at or before `head`.
proof fn lemma_place_not_after(
    order: Seq<usize>,
    walk: Map<usize, Seq<int>>,
    head: int,
    b: int,
    p: Seq<int>,
)
    requires
        in_order(order, walk),
        0 <= head,
        head + 1 < order.len(),
        0 <= b < order.len(),
        walk_before(p, walk_at(order, walk, head + 1)),
        !walk_before(p, walk_at(order, walk, b)),
    ensures
        b <= head,
{
    if b > head + 1 {
        assert(walk_before(walk_at(order, walk, head + 1), walk_at(order, walk, b)));
        lemma_before_transitive(p, walk_at(order, walk, head + 1), walk_at(order, walk, b));
    }
}

/// Extending two walks by the same edge keeps the one that is not after the
/// other not after it, and so not after what the other is not after.
proof fn lemma_extend_not_after(x: Seq<int>, p: Seq<int>, k: int, v: Seq<int>)
    requires
        !walk_before(p, x),
        !walk_before(x.push(k), v),
    ensures
        !walk_before(p.push(k), v),
{
    lemma_before_total(x, p);
    lemma_before_push(x, k, p, k);
    if walk_before(p.push(k), v) {
        if x != p {
            lemma_before_transitive(x.push(k), p.push(k), v);
        }
    }
}

/// A walk between the end of one node's edges and the first edge of the node
/// met next leads to a node that was met, and by no later walk.
proof fn lemma_advances_covered(
    g: Map<usize, Seq<usize>>,
    start: usize,
    order: Seq<usize>,
    prev: Map<usize, Option<usize>>,
    walk: Map<usize, Seq<int>>,
    front: Seq<int>,
    head: int,
    w: Seq<int>,
)
    requires
        search_at(g, start, order, prev, walk, front, head, degree(g, order[head]) as int),
        head + 1 < order.len(),
        walk_ok(g, start, w),
        walk_before(w, walk[order[head + 1]].push(0)),
        !walk_before(w, front),
    ensures
        covered(g, start, prev, walk, w),
{
    let base2 = walk[order[head + 1]];
    assert(w.len() > 0);
    let p = w.drop_last();
    let k = w.last();
    assert(w =~= p.push(k));
    let x = walk_end(g, start, p);
    assert(walk_before(p, front) && walk_before(p, base2)) by {
        lemma_before_push(p, k, base2, 0);
        assert(walk_before(walk_at(order, walk, head + 1), front));
        lemma_before_transitive(p, base2, front);
    }
    assert(walk_ok(g, start, p) && g.contains_key(x) && 0 <= k < g[x].len());
    assert(covered(g, start, prev, walk, p));
    let b = lemma_place(g, start, order, prev, walk, front, x);
    lemma_place_not_after(order, walk, head, b, p);
    lemma_edge_covered(g, start, order, prev, walk, front, head, b, k);
    lemma_walk_push(g, start, p, k);
    lemma_extend_not_after(walk[x], p, k, walk[g[x][k]]);
}

/// All edges of the node at the place of the search were looked at: the
/// search goes on to the node that was met next.
pub proof fn lemma_search_advances(
    g: Map<usize, Seq<usize>>,
    start: usize,
    order: Seq<usize>,
    prev: Map<usize, Option<usize>>,
    walk: Map<usize, Seq<int>>,
    front: Seq<int>,
    head: int,
)
    requires
        search_at(g, start, order, prev, walk, front, head, degree(g, order[head]) as int),
        head + 1 < order.len(),
    ensures
        search_at(g, start, order, prev, walk, walk[order[head + 1]].push(0), head + 1, 0),
{
    let base = walk[order[head]];
    let next = walk[order[head + 1]].push(0);
    assert(walk_before(walk_at(order, walk, head), walk_at(order, walk, head + 1)));
    lemma_advances_behind(order, walk, base, degree(g, order[head]) as int, walk[order[head + 1]]);
    assert forall|w: Seq<int>| walk_ok(g, start, w) && walk_before(w, next) implies #[trigger] covered(
        g,
        start,
        prev,
        walk,
        w,
    ) by {
        if !walk_before(w, front) {
            lemma_advances_covered(g, start, order, prev, walk, front, head, w);
        }
    }
}

/// All edges of the last node that was met were looked at: every node to
/// which a walk from `start` leads was met.
pub proof fn lemma_search_ends(
    g: Map<usize, Seq<usize>>,
    start: usize,
    order: Seq<usize>,
    prev: Map<usize, Option<usize>>,
    walk: Map<usize, Seq<int>>,
    front: Seq<int>,
    head: int,
    w: Seq<int>,
)
    requires
        search_at(g, start, order, prev, walk, front, head, degree(g, order[head]) as int),
        head + 1 == order.len(),
        walk_ok(g, start, w),
    ensures
        prev.contains_key(walk_end(g, start, w)),
    decreases w.len(),
{
    if w.len() == 0 {
        assert(order.contains(order[0]));
    } else {
        let p = w.drop_last();
        lemma_search_ends(g, start, order, prev, walk, front, head, p);
        let x = walk_end(g, start, p);
        let b = lemma_place(g, start, order, prev, walk, front, x);
        lemma_edge_covered(g, start, order, prev, walk, front, head, b, w.last());
    }
}

/// The path that the search finds is a shortest one.
pub proof fn lemma_search_path_is_shortest(
    g: Map<usize, Seq<usize>>,
    start: usize,
    end: usize,
    p: Seq<usize>,
)
    requires
        is_search_path(g, start, end, p),
    ensures
        is_shortest_path(g, start, end, p),
{
    let w = choose|w: Seq<int>| #[trigger]
        is_first_route(g, start, end, w) && p == walk_nodes(g, start, w);
    lemma_walk_is_path(g, start, w);
    lemma_walk_nodes_shape(g, start, w);
    assert forall|q: Seq<usize>| #[trigger] connects(g, q, start, end) implies p.len()
        <= q.len() by {
        let v = lemma_path_has_walk(g, q);
        assert(is_route(g, start, end, v));
    }
}

/// The search finds one path and no other.
pub proof fn lemma_search_path_is_unique(
    g: Map<usize, Seq<usize>>,
    start: usize,
    end: usize,
    p: Seq<usize>,
    q: Seq<usize>,
)
    requires
        is_search_path(g, start, end, p),
        is_search_path(g, start, end, q),
    ensures
        p == q,
{
    let w = choose|w: Seq<int>| #[trigger]
        is_first_route(g, start, end, w) && p == walk_nodes(g, start, w);
    let v = choose|v: Seq<int>| #[trigger]
        is_first_route(g, start, end, v) && q == walk_nodes(g, start, v);
    assert(is_route(g, start, end, w));
    assert(is_route(g, start, end, v));
    if v != w {
        lemma_before_asymmetric(w, v);
    }
}

/// Where no walk leads from `start` to `end`, no path does.
pub proof fn lemma_no_route_no_path(g: Map<usize, Seq<usize>>, start: usize, end: usize)
    requires
        forall|w: Seq<int>| !is_route(g, start, end, w),
    ensures
        forall|q: Seq<usize>| !connects(g, q, start, end),
{
    assert forall|q: Seq<usize>| !connects(g, q, start, end) by {
        if connects(g, q, start, end) {
            let v = lemma_path_has_walk(g, q);
            assert(is_route(g, start, end, v));
        }
    }
}

/// From a node to itself the search finds the path of that node alone.
pub proof fn lemma_search_path_to_itself(g: Map<usize, Seq<usize>>, start: usize)
    requires
        g.contains_key(start),
    ensures
        is_search_path(g, start, start, seq![start]),
{
    let w = Seq::<int>::empty();
    assert forall|v: Seq<int>| #[trigger] is_route(g, start, start, v) && v != w implies walk_before(
        w,
        v,
    ) by {
        if v.len() == 0 {
            assert(v =~= w);
        }
    }
    assert(is_first_route(g, start, start, w));
    assert(walk_nodes(g, start, w) == seq![start]);
}

} // verus!
