//! The mathematical model that the contracts of this crate speak of.
//!
//! A graph is a map from a node to the sequence of its out-neighbours, in the
//! order in which the edges were given. Parallel edges repeat a neighbour.

use std::collections::HashMap;
use vstd::prelude::*;

verus! {

/// The graph that an adjacency list stands for.
pub open spec fn adjacency(adj: &HashMap<usize, Vec<usize>>) -> Map<usize, Seq<usize>> {
    Map::new(|node: usize| adj@.contains_key(node), |node: usize| adj@[node]@)
}

/// An adjacency list has the nodes of its graph as keys, finitely many.
pub proof fn lemma_adjacency_nodes(adj: &HashMap<usize, Vec<usize>>)
    ensures
        adjacency(adj).dom() == adj@.dom(),
        adjacency(adj).dom().finite(),
{
    broadcast use vstd::std_specs::hash::group_hash_axioms;

    assert(adjacency(adj).dom() =~= adj@.dom());
}

/// The out-degree of `node`: the number of edges that leave it, parallel
/// edges counted each. A node that is no key has none.
pub open spec fn degree(g: Map<usize, Seq<usize>>, node: usize) -> nat {
    if g.contains_key(node) {
        g[node].len()
    } else {
        0
    }
}

/// Whether the graph holds an edge from `from` to `to`.
pub open spec fn has_edge(g: Map<usize, Seq<usize>>, from: usize, to: usize) -> bool {
    g.contains_key(from) && g[from].contains(to)
}

/// The places at which the graph holds an edge: a node and a position in its
/// neighbour sequence. Parallel edges have places of their own.
pub open spec fn edge_slots(g: Map<usize, Seq<usize>>) -> Set<(usize, int)> {
    Set::new(|slot: (usize, int)| g.contains_key(slot.0) && 0 <= slot.1 < g[slot.0].len())
}

/// The number of edges of the graph, parallel edges counted each: the sum of
/// the lengths of all neighbour sequences.
pub open spec fn total_edge_count(g: Map<usize, Seq<usize>>) -> nat {
    edge_slots(g).len()
}

/// The node to which the edge at `slot` leads.
pub open spec fn slot_target(g: Map<usize, Seq<usize>>, slot: (usize, int)) -> usize {
    g[slot.0][slot.1]
}

/// Edges run both ways between the two different nodes `a` and `b`.
pub open spec fn is_two_way(g: Map<usize, Seq<usize>>, a: usize, b: usize) -> bool {
    a != b && has_edge(g, a, b) && has_edge(g, b, a)
}

/// The pairs of nodes between which edges run both ways, each pair once, the
/// smaller node first.
pub open spec fn bidirectional_pairs(g: Map<usize, Seq<usize>>) -> Set<(usize, usize)> {
    Set::new(|pair: (usize, usize)| pair.0 < pair.1 && is_two_way(g, pair.0, pair.1))
}

/// The places of the edges that belong to no bidirectional pair: no edge
/// runs back from where they lead, or they lead from a node to itself.
pub open spec fn one_way_slots(g: Map<usize, Seq<usize>>) -> Set<(usize, int)> {
    edge_slots(g).filter(|slot: (usize, int)| !is_two_way(g, slot.0, slot_target(g, slot)))
}

/// The number of edges that belong to no bidirectional pair.
pub open spec fn one_way_count(g: Map<usize, Seq<usize>>) -> nat {
    one_way_slots(g).len()
}

/// No edge of a bidirectional pair has a parallel edge.
pub open spec fn two_way_edges_are_single(g: Map<usize, Seq<usize>>) -> bool {
    forall|a: usize, i: int, j: int|
        g.contains_key(a) && 0 <= i < j < g[a].len() && #[trigger] g[a][i] == #[trigger] g[a][j]
            ==> !is_two_way(g, a, g[a][i])
}

} // verus!
