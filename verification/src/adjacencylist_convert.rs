//! From a list of edges to an adjacency list.

use std::collections::HashMap;
use std::collections::HashSet;
use vstd::prelude::*;
use vstd::std_specs::hash::spec_hash_keys_iter;
use vstd::std_specs::iter::IteratorSpec;
use crate::edges::lemma_edge_count_push;
use crate::model::{adjacency, edge_slots, total_edge_count};

verus! {

/// One directed edge of the network.
#[derive(Debug, Clone, Copy)]
pub struct RoadRecord {
    pub source: usize,
    pub target: usize,
}

impl RoadRecord {
    pub fn new(source: usize, target: usize) -> (record: Self)
        ensures
            record.source == source,
            record.target == target,
    {
        RoadRecord { source, target }
    }
}

/// `node` is the source or the target of `record`.
pub open spec fn is_endpoint(record: RoadRecord, node: usize) -> bool {
    record.source == node || record.target == node
}

/// The nodes that occur in `edges`, as a source or as a target.
pub open spec fn endpoints(edges: Seq<RoadRecord>) -> Set<usize> {
    Set::new(|node: usize| exists|i: int| 0 <= i < edges.len() && is_endpoint(#[trigger] edges[i], node))
}

/// The targets of the edges of `edges` that leave `node`, in the order of
/// `edges`.
pub open spec fn out_neighbors(edges: Seq<RoadRecord>, node: usize) -> Seq<usize>
    decreases edges.len(),
{
    if edges.len() == 0 {
        Seq::empty()
    } else if edges.last().source == node {
        out_neighbors(edges.drop_last(), node).push(edges.last().target)
    } else {
        out_neighbors(edges.drop_last(), node)
    }
}

/// The graph with the nodes `nodes` and the edges `edges`.
pub open spec fn graph_of(edges: Seq<RoadRecord>, nodes: Set<usize>) -> Map<usize, Seq<usize>> {
    Map::new(|node: usize| nodes.contains(node), |node: usize| out_neighbors(edges, node))
}

/// The nodes that occur in `records`, as a source or as a target.
pub fn collect_unique_nodes(records: &[RoadRecord]) -> (nodes: HashSet<usize>)
    ensures
        nodes@ == endpoints(records@),
        forall|i: int|
            0 <= i < records@.len() ==> nodes@.contains(#[trigger] records@[i].source)
                && nodes@.contains(records@[i].target),
{
    let mut nodes: HashSet<usize> = HashSet::new();
    let mut i: usize = 0;
    assert(nodes@ =~= endpoints(records@.take(0)));
    while i < records.len()
        invariant
            i <= records@.len(),
            nodes@ == endpoints(records@.take(i as int)),
        decreases records@.len() - i,
    {
        let record = records[i];
        nodes.insert(record.source);
        nodes.insert(record.target);
        proof {
            let before = records@.take(i as int);
            let after = records@.take(i + 1);
            assert forall|node: usize| #[trigger]
                endpoints(after).contains(node) <==> endpoints(before).contains(node)
                    || is_endpoint(record, node) by {
                if endpoints(after).contains(node) {
                    let k = choose|k: int| 0 <= k < after.len() && is_endpoint(#[trigger] after[k], node);
                    if k < i {
                        assert(is_endpoint(before[k], node));
                    }
                }
                if endpoints(before).contains(node) {
                    let k = choose|k: int|
                        0 <= k < before.len() && is_endpoint(#[trigger] before[k], node);
                    assert(is_endpoint(after[k], node));
                }
                if is_endpoint(record, node) {
                    assert(is_endpoint(after[i as int], node));
                }
            }
            assert(nodes@ =~= endpoints(after));
        }
        i += 1;
    }
    assert(records@.take(i as int) =~= records@);
    assert forall|i: int| 0 <= i < records@.len() implies nodes@.contains(
        #[trigger] records@[i].source,
    ) && nodes@.contains(records@[i].target) by {
        assert(is_endpoint(records@[i], records@[i].source));
        assert(is_endpoint(records@[i], records@[i].target));
    }
    nodes
}

/// The adjacency list with the keys `nodes` in which each node has, in the
/// order of `records`, the targets of the edges that leave it.
///
/// Every source of an edge must be one of `nodes`.
pub fn create_adjacency_list(records: &[RoadRecord], nodes: &HashSet<usize>) -> (adj_list: HashMap<
    usize,
    Vec<usize>,
>)
    requires
        forall|i: int| 0 <= i < records@.len() ==> nodes@.contains(#[trigger] records@[i].source),
    ensures
        adjacency(&adj_list) == graph_of(records@, nodes@),
        total_edge_count(adjacency(&adj_list)) == records@.len(),
        total_edge_count(adjacency(&adj_list)) <= usize::MAX,
{
    let mut adj_list: HashMap<usize, Vec<usize>> = HashMap::new();
    for node in it: nodes.iter()
        invariant
            it.seq() == spec_hash_keys_iter(nodes).remaining(),
            forall|k: usize|
                adj_list@.contains_key(k) <==> exists|j: int|
                    0 <= j < it.index() && *#[trigger] it.seq()[j] == k,
            forall|k: usize| adj_list@.contains_key(k) ==> (#[trigger] adj_list@[k])@.len() == 0,
    {
        let ghost before = adj_list@;
        let ghost at = it.index();
        adj_list.insert(*node, Vec::new());
        proof {
            assert forall|k: usize| adj_list@.contains_key(k) implies exists|j: int|
                0 <= j < at + 1 && *#[trigger] it.seq()[j] == k by {
                if k == *node {
                    assert(*it.seq()[at] == k);
                } else {
                    assert(before.contains_key(k));
                    let j = choose|j: int| 0 <= j < at && *#[trigger] it.seq()[j] == k;
                    assert(*it.seq()[j] == k);
                }
            }
        }
    }
    proof {
        let keys = spec_hash_keys_iter(nodes).remaining();
        assert forall|k: usize| adj_list@.contains_key(k) <==> nodes@.contains(k) by {
            if adj_list@.contains_key(k) {
                let j = choose|j: int| 0 <= j < keys.len() && *#[trigger] keys[j] == k;
                assert(keys.unref()[j] == k);
                assert(keys.unref().to_set().contains(k));
            }
            if nodes@.contains(k) {
                assert(keys.unref().to_set().contains(k));
                let j = choose|j: int| 0 <= j < keys.unref().len() && keys.unref()[j] == k;
                assert(*keys[j] == k);
            }
        }
        assert forall|k: usize| adj_list@.contains_key(k) implies adjacency(&adj_list)[k]
            == out_neighbors(records@.take(0), k) by {
            assert(adj_list@[k]@ =~= Seq::<usize>::empty());
        }
        assert(adjacency(&adj_list) =~= graph_of(records@.take(0), nodes@));
    }
    let mut i: usize = 0;
    while i < records.len()
        invariant
            i <= records@.len(),
            forall|i: int|
                0 <= i < records@.len() ==> nodes@.contains(#[trigger] records@[i].source),
            adjacency(&adj_list) == graph_of(records@.take(i as int), nodes@),
        decreases records@.len() - i,
    {
        let record = records[i];
        let ghost before = adjacency(&adj_list);
        proof {
            assert(nodes@.contains(records@[i as int].source));
            assert(before.contains_key(record.source));
            assert(adj_list@.contains_key(record.source));
        }
        let mut neighbors = adj_list.remove(&record.source).unwrap();
        neighbors.push(record.target);
        adj_list.insert(record.source, neighbors);
        proof {
            let edges = records@.take(i + 1);
            assert(edges.drop_last() =~= records@.take(i as int));
            assert(edges.last() == record);
            assert forall|k: usize| nodes@.contains(k) implies adjacency(&adj_list)[k]
                == out_neighbors(edges, k) by {
                assert(before.contains_key(k));
                assert(before[k] == out_neighbors(records@.take(i as int), k));
            }
            assert(adjacency(&adj_list) =~= graph_of(edges, nodes@));
        }
        i += 1;
    }
    proof {
        assert(records@.take(i as int) =~= records@);
        lemma_built_graph_edge_count(records@, nodes@);
    }
    adj_list
}

/// In the graph built from a list of edges every node that occurs in the
/// list is a key, and a key that no edge leaves has no neighbours.
pub proof fn lemma_built_graph_has_every_node(edges: Seq<RoadRecord>)
    ensures
        forall|i: int|
            0 <= i < edges.len() ==> graph_of(edges, endpoints(edges)).contains_key(
                #[trigger] edges[i].source,
            ),
        forall|i: int|
            0 <= i < edges.len() ==> graph_of(edges, endpoints(edges)).contains_key(
                #[trigger] edges[i].target,
            ),
        forall|node: usize| #[trigger]
            graph_of(edges, endpoints(edges)).contains_key(node) && (forall|i: int|
                0 <= i < edges.len() ==> (#[trigger] edges[i]).source != node) ==> graph_of(
                edges,
                endpoints(edges),
            )[node].len() == 0,
        graph_of(Seq::<RoadRecord>::empty(), endpoints(Seq::<RoadRecord>::empty()))
            == Map::<usize, Seq<usize>>::empty(),
{
    assert forall|i: int| 0 <= i < edges.len() implies graph_of(edges, endpoints(edges)).contains_key(
        #[trigger] edges[i].source,
    ) by {
        assert(is_endpoint(edges[i], edges[i].source));
    }
    assert forall|i: int| 0 <= i < edges.len() implies graph_of(edges, endpoints(edges)).contains_key(
        #[trigger] edges[i].target,
    ) by {
        assert(is_endpoint(edges[i], edges[i].target));
    }
    assert forall|node: usize| #[trigger]
        graph_of(edges, endpoints(edges)).contains_key(node) && (forall|i: int|
            0 <= i < edges.len() ==> (#[trigger] edges[i]).source != node) implies graph_of(
        edges,
        endpoints(edges),
    )[node].len() == 0 by {
        lemma_no_edge_no_neighbor(edges, node);
    }
    assert(graph_of(Seq::<RoadRecord>::empty(), endpoints(Seq::<RoadRecord>::empty()))
        =~= Map::<usize, Seq<usize>>::empty());
}

/// A node that no edge leaves has no neighbours.
proof fn lemma_no_edge_no_neighbor(edges: Seq<RoadRecord>, node: usize)
    requires
        forall|i: int| 0 <= i < edges.len() ==> (#[trigger] edges[i]).source != node,
    ensures
        out_neighbors(edges, node).len() == 0,
    decreases edges.len(),
{
    if edges.len() > 0 {
        assert(edges[edges.len() - 1].source != node);
        assert forall|i: int| 0 <= i < edges.drop_last().len() implies (#[trigger] edges.drop_last()[i]).source
            != node by {
            assert(edges.drop_last()[i] == edges[i]);
        }
        lemma_no_edge_no_neighbor(edges.drop_last(), node);
    }
}

/// The graph built from a list of edges has as many edges as the list.
pub proof fn lemma_built_graph_edge_count(edges: Seq<RoadRecord>, nodes: Set<usize>)
    requires
        forall|i: int| 0 <= i < edges.len() ==> nodes.contains(#[trigger] edges[i].source),
    ensures
        edge_slots(graph_of(edges, nodes)).finite(),
        total_edge_count(graph_of(edges, nodes)) == edges.len(),
    decreases edges.len(),
{
    if edges.len() == 0 {
        assert(edge_slots(graph_of(edges, nodes)) =~= Set::<(usize, int)>::empty());
    } else {
        let rest = edges.drop_last();
        let last = edges.last();
        assert forall|i: int| 0 <= i < rest.len() implies nodes.contains(#[trigger] rest[i].source) by {
            assert(rest[i] == edges[i]);
        }
        lemma_built_graph_edge_count(rest, nodes);
        let g = graph_of(rest, nodes);
        assert(nodes.contains(edges[edges.len() - 1].source));
        lemma_edge_count_push(g, last.source, last.target);
        assert(graph_of(edges, nodes) =~= g.insert(last.source, g[last.source].push(last.target)));
    }
}

} // verus!
