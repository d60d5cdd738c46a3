//! Counting the edges of a graph.

use vstd::prelude::*;
use vstd::relations::injective_on;
use vstd::set_lib::{
    lemma_int_range, lemma_len_subset, lemma_map_size, lemma_map_size_bound,
    lemma_set_disjoint_lens, set_int_range,
};
use crate::model::{
    bidirectional_pairs, edge_slots, has_edge, is_two_way, one_way_count, one_way_slots,
    slot_target, total_edge_count, two_way_edges_are_single,
};

verus! {

/// The places of the `n` edges of the node `a`.
pub open spec fn row_slots(a: usize, n: nat) -> Set<(usize, int)> {
    Set::new(|slot: (usize, int)| slot.0 == a && 0 <= slot.1 < n)
}

/// The part of the graph `g` that the first `n` nodes of `nodes` make up.
pub open spec fn part(g: Map<usize, Seq<usize>>, nodes: Seq<usize>, n: int) -> Map<usize, Seq<usize>> {
    g.restrict(nodes.take(n).to_set())
}

/// A node with `n` edges has `n` places.
pub proof fn lemma_row_slots(a: usize, n: nat)
    ensures
        row_slots(a, n).finite(),
        row_slots(a, n).len() == n,
{
    let range = set_int_range(0, n as int);
    lemma_int_range(0, n as int);
    let place = |i: int| (a, i);
    assert(injective_on(place, range));
    assert forall|slot: (usize, int)| row_slots(a, n).contains(slot) implies range.map(
        place,
    ).contains(slot) by {
        assert(range.contains(slot.1));
        assert(place(slot.1) == slot);
    }
    assert(range.map(place) =~= row_slots(a, n));
    lemma_map_size(range, row_slots(a, n), place);
}

/// The graph without nodes has no edges.
pub proof fn lemma_edge_count_empty()
    ensures
        edge_slots(Map::<usize, Seq<usize>>::empty()).finite(),
        total_edge_count(Map::<usize, Seq<usize>>::empty()) == 0,
{
    assert(edge_slots(Map::<usize, Seq<usize>>::empty()) =~= Set::<(usize, int)>::empty());
}

/// A new node adds as many edges as its neighbour sequence is long.
pub proof fn lemma_edge_count_insert(g: Map<usize, Seq<usize>>, a: usize, s: Seq<usize>)
    requires
        edge_slots(g).finite(),
        !g.contains_key(a),
    ensures
        edge_slots(g.insert(a, s)).finite(),
        total_edge_count(g.insert(a, s)) == total_edge_count(g) + s.len(),
{
    let row = row_slots(a, s.len());
    lemma_row_slots(a, s.len());
    assert(edge_slots(g.insert(a, s)) =~= edge_slots(g).union(row));
    assert(edge_slots(g).disjoint(row));
    lemma_set_disjoint_lens(edge_slots(g), row);
}

/// Replacing the neighbour sequence of a node by one that is one edge longer
/// adds one edge.
pub proof fn lemma_edge_count_push(g: Map<usize, Seq<usize>>, a: usize, target: usize)
    requires
        edge_slots(g).finite(),
        g.contains_key(a),
    ensures
        edge_slots(g.insert(a, g[a].push(target))).finite(),
        total_edge_count(g.insert(a, g[a].push(target))) == total_edge_count(g) + 1,
{
    let g2 = g.insert(a, g[a].push(target));
    let slot = (a, g[a].len() as int);
    assert(edge_slots(g2) =~= edge_slots(g).insert(slot));
}

/// A graph with finitely many nodes has finitely many edges.
pub proof fn lemma_edge_slots_finite(g: Map<usize, Seq<usize>>)
    requires
        g.dom().finite(),
    ensures
        edge_slots(g).finite(),
    decreases g.dom().len(),
{
    if g.dom().len() == 0 {
        assert(edge_slots(g) =~= Set::<(usize, int)>::empty());
    } else {
        let a = g.dom().choose();
        let rest = g.remove(a);
        lemma_edge_slots_finite(rest);
        lemma_edge_count_insert(rest, a, g[a]);
        assert(rest.insert(a, g[a]) =~= g);
    }
}

/// A part of a graph has no more edges than the graph.
pub proof fn lemma_part_edge_count(g: Map<usize, Seq<usize>>, nodes: Seq<usize>, n: int)
    requires
        g.dom().finite(),
    ensures
        total_edge_count(part(g, nodes, n)) <= total_edge_count(g),
{
    lemma_edge_slots_finite(g);
    assert(edge_slots(part(g, nodes, n)).subset_of(edge_slots(g)));
    lemma_len_subset(edge_slots(part(g, nodes, n)), edge_slots(g));
}

/// The part that no node makes up is empty.
pub proof fn lemma_part_none(g: Map<usize, Seq<usize>>, nodes: Seq<usize>)
    ensures
        part(g, nodes, 0) == Map::<usize, Seq<usize>>::empty(),
{
    assert(part(g, nodes, 0) =~= Map::<usize, Seq<usize>>::empty());
}

/// One node more adds that node to the part.
pub proof fn lemma_part_next(g: Map<usize, Seq<usize>>, nodes: Seq<usize>, n: int)
    requires
        nodes.no_duplicates(),
        0 <= n < nodes.len(),
        g.contains_key(nodes[n]),
    ensures
        !part(g, nodes, n).contains_key(nodes[n]),
        part(g, nodes, n + 1) == part(g, nodes, n).insert(nodes[n], g[nodes[n]]),
{
    let before = nodes.take(n);
    let after = nodes.take(n + 1);
    if before.contains(nodes[n]) {
        let k = choose|k: int| 0 <= k < before.len() && before[k] == nodes[n];
        assert(nodes[k] == nodes[n]);
    }
    assert forall|x: usize| after.to_set().contains(x) <==> before.to_set().contains(x) || x
        == nodes[n] by {
        if after.contains(x) {
            let k = choose|k: int| 0 <= k < after.len() && after[k] == x;
            if k < n {
                assert(before[k] == x);
            }
        }
        if before.contains(x) {
            let k = choose|k: int| 0 <= k < before.len() && before[k] == x;
            assert(after[k] == x);
        }
        if x == nodes[n] {
            assert(after[n] == x);
        }
    }
    assert(part(g, nodes, n + 1) =~= part(g, nodes, n).insert(nodes[n], g[nodes[n]]));
}

/// All nodes make up the whole graph.
pub proof fn lemma_part_all(g: Map<usize, Seq<usize>>, nodes: Seq<usize>)
    requires
        nodes.to_set() == g.dom(),
    ensures
        part(g, nodes, nodes.len() as int) == g,
{
    assert(nodes.take(nodes.len() as int) =~= nodes);
    assert(part(g, nodes, nodes.len() as int) =~= g);
}

/// The places of the edges of bidirectional pairs that lead from the smaller
/// node to the larger.
pub open spec fn rising_slots(g: Map<usize, Seq<usize>>) -> Set<(usize, int)> {
    edge_slots(g).filter(
        |slot: (usize, int)|
            is_two_way(g, slot.0, slot_target(g, slot)) && slot.0 < slot_target(g, slot),
    )
}

/// The places of the edges of bidirectional pairs that lead from the larger
/// node to the smaller.
pub open spec fn falling_slots(g: Map<usize, Seq<usize>>) -> Set<(usize, int)> {
    edge_slots(g).filter(
        |slot: (usize, int)|
            is_two_way(g, slot.0, slot_target(g, slot)) && slot.0 > slot_target(g, slot),
    )
}

/// Where no edge of a bidirectional pair has a parallel edge, each pair has
/// one edge that leads from its smaller node to its larger.
proof fn lemma_rising_slots(g: Map<usize, Seq<usize>>)
    requires
        edge_slots(g).finite(),
        two_way_edges_are_single(g),
    ensures
        rising_slots(g).finite(),
        bidirectional_pairs(g).finite(),
        rising_slots(g).len() == bidirectional_pairs(g).len(),
{
    let rising = rising_slots(g);
    let pairs = bidirectional_pairs(g);
    let ends = |slot: (usize, int)| (slot.0, slot_target(g, slot));
    edge_slots(g).lemma_len_filter(
        |slot: (usize, int)|
            is_two_way(g, slot.0, slot_target(g, slot)) && slot.0 < slot_target(g, slot),
    );
    assert forall|s: (usize, int), t: (usize, int)|
        rising.contains(s) && rising.contains(t) && #[trigger] ends(s) == #[trigger] ends(
            t,
        ) implies s == t by {
        if s.1 < t.1 {
            assert(g[s.0][s.1] == g[s.0][t.1]);
        } else if t.1 < s.1 {
            assert(g[s.0][t.1] == g[s.0][s.1]);
        }
    }
    assert(injective_on(ends, rising));
    assert forall|p: (usize, usize)| pairs.contains(p) implies rising.map(ends).contains(p) by {
        assert(has_edge(g, p.0, p.1));
        let i = choose|i: int| 0 <= i < g[p.0].len() && g[p.0][i] == p.1;
        assert(rising.contains((p.0, i)));
        assert(ends((p.0, i)) == p);
    }
    assert forall|p: (usize, usize)| rising.map(ends).contains(p) implies pairs.contains(p) by {
        let s = choose|s: (usize, int)| rising.contains(s) && ends(s) == p;
        assert(is_two_way(g, s.0, slot_target(g, s)));
    }
    assert(rising.map(ends) =~= pairs);
    lemma_map_size(rising, pairs, ends);
}

/// Where no edge of a bidirectional pair has a parallel edge, each pair has
/// one edge that leads from its larger node to its smaller.
proof fn lemma_falling_slots(g: Map<usize, Seq<usize>>)
    requires
        edge_slots(g).finite(),
        two_way_edges_are_single(g),
    ensures
        falling_slots(g).finite(),
        falling_slots(g).len() == bidirectional_pairs(g).len(),
{
    let falling = falling_slots(g);
    let pairs = bidirectional_pairs(g);
    let ends = |slot: (usize, int)| (slot_target(g, slot), slot.0);
    edge_slots(g).lemma_len_filter(
        |slot: (usize, int)|
            is_two_way(g, slot.0, slot_target(g, slot)) && slot.0 > slot_target(g, slot),
    );
    assert forall|s: (usize, int), t: (usize, int)|
        falling.contains(s) && falling.contains(t) && #[trigger] ends(s) == #[trigger] ends(
            t,
        ) implies s == t by {
        if s.1 < t.1 {
            assert(g[s.0][s.1] == g[s.0][t.1]);
        } else if t.1 < s.1 {
            assert(g[s.0][t.1] == g[s.0][s.1]);
        }
    }
    assert(injective_on(ends, falling));
    assert forall|p: (usize, usize)| pairs.contains(p) implies falling.map(ends).contains(p) by {
        assert(has_edge(g, p.1, p.0));
        let i = choose|i: int| 0 <= i < g[p.1].len() && g[p.1][i] == p.0;
        assert(falling.contains((p.1, i)));
        assert(ends((p.1, i)) == p);
    }
    assert forall|p: (usize, usize)| falling.map(ends).contains(p) implies pairs.contains(p) by {
        let s = choose|s: (usize, int)| falling.contains(s) && ends(s) == p;
        assert(is_two_way(g, s.0, slot_target(g, s)));
    }
    assert(falling.map(ends) =~= pairs);
    lemma_map_size(falling, pairs, ends);
}

/// Every edge belongs to a bidirectional pair, which accounts for two edges,
/// or to none.
///
/// This holds where no edge of a bidirectional pair has a parallel edge: a
/// pair is counted once, however many edges run between its nodes.
pub proof fn lemma_edge_count_splits(g: Map<usize, Seq<usize>>)
    requires
        g.dom().finite(),
        two_way_edges_are_single(g),
    ensures
        bidirectional_pairs(g).finite(),
        total_edge_count(g) == 2 * bidirectional_pairs(g).len() + one_way_count(g),
{
    lemma_edge_slots_finite(g);
    lemma_rising_slots(g);
    lemma_falling_slots(g);
    let one_way = one_way_slots(g);
    let rising = rising_slots(g);
    let falling = falling_slots(g);
    edge_slots(g).lemma_len_filter(
        |slot: (usize, int)| !is_two_way(g, slot.0, slot_target(g, slot)),
    );
    assert(rising.disjoint(falling));
    lemma_set_disjoint_lens(rising, falling);
    assert(one_way.disjoint(rising + falling));
    lemma_set_disjoint_lens(one_way, rising + falling);
    assert(edge_slots(g) =~= one_way + (rising + falling));
}

/// However many parallel edges there are, the edges of the bidirectional
/// pairs and the others are no more than all edges.
pub proof fn lemma_edge_count_bounds(g: Map<usize, Seq<usize>>)
    requires
        g.dom().finite(),
    ensures
        bidirectional_pairs(g).finite(),
        2 * bidirectional_pairs(g).len() + one_way_count(g) <= total_edge_count(g),
{
    lemma_edge_slots_finite(g);
    let pairs = bidirectional_pairs(g);
    let one_way = one_way_slots(g);
    let rising = rising_slots(g);
    let falling = falling_slots(g);
    let up = |slot: (usize, int)| (slot.0, slot_target(g, slot));
    let down = |slot: (usize, int)| (slot_target(g, slot), slot.0);
    edge_slots(g).lemma_len_filter(
        |slot: (usize, int)| !is_two_way(g, slot.0, slot_target(g, slot)),
    );
    edge_slots(g).lemma_len_filter(
        |slot: (usize, int)|
            is_two_way(g, slot.0, slot_target(g, slot)) && slot.0 < slot_target(g, slot),
    );
    edge_slots(g).lemma_len_filter(
        |slot: (usize, int)|
            is_two_way(g, slot.0, slot_target(g, slot)) && slot.0 > slot_target(g, slot),
    );
    assert forall|p: (usize, usize)| pairs.contains(p) <==> rising.map(up).contains(p) by {
        if pairs.contains(p) {
            assert(has_edge(g, p.0, p.1));
            let i = choose|i: int| 0 <= i < g[p.0].len() && g[p.0][i] == p.1;
            assert(rising.contains((p.0, i)));
            assert(up((p.0, i)) == p);
        }
        if rising.map(up).contains(p) {
            let s = choose|s: (usize, int)| rising.contains(s) && up(s) == p;
            assert(is_two_way(g, s.0, slot_target(g, s)));
        }
    }
    assert(rising.map(up) =~= pairs);
    lemma_map_size_bound(rising, pairs, up);
    assert forall|p: (usize, usize)| pairs.contains(p) <==> falling.map(down).contains(p) by {
        if pairs.contains(p) {
            assert(has_edge(g, p.1, p.0));
            let i = choose|i: int| 0 <= i < g[p.1].len() && g[p.1][i] == p.0;
            assert(falling.contains((p.1, i)));
            assert(down((p.1, i)) == p);
        }
        if falling.map(down).contains(p) {
            let s = choose|s: (usize, int)| falling.contains(s) && down(s) == p;
            assert(is_two_way(g, s.0, slot_target(g, s)));
        }
    }
    assert(falling.map(down) =~= pairs);
    lemma_map_size_bound(falling, pairs, down);
    assert(rising.disjoint(falling));
    lemma_set_disjoint_lens(rising, falling);
    assert(one_way.disjoint(rising + falling));
    lemma_set_disjoint_lens(one_way, rising + falling);
    assert(edge_slots(g) =~= one_way + (rising + falling));
}

} // verus!
