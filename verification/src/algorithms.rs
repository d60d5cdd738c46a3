//! Questions asked of an adjacency list.

use std::collections::HashMap;
use vstd::prelude::*;
use crate::degrees::{
    is_degree_listing, is_kth_degree, is_max_degree, is_min_degree, is_mode, is_mode_below,
    lemma_extreme_degrees, lemma_kth_degree, lemma_listing_ascends, lemma_mode_after_run,
    lemma_mode_of_all, lemma_sorted_degrees_list,
};
use crate::edges::{
    lemma_edge_count_empty, lemma_edge_count_insert, lemma_part_all, lemma_part_edge_count,
    lemma_part_next, lemma_part_none, part,
};
use crate::model::{
    adjacency, bidirectional_pairs, degree, edge_slots, has_edge, lemma_adjacency_nodes,
    total_edge_count,
};
use crate::sorting::{
    is_strictly_sorted, lemma_same_pairs, lemma_strictly_sorted_len, sort_pairs, without_repeats,
};
use crate::nodes::node_list;
use crate::ranking::{
    degrees_fit, entry, is_top_nodes, lemma_head_of_ranking_is_top, lemma_sorted_entries_rank,
    picked,
};
use crate::paths::{connects, is_first_route, is_route, lemma_walk_nodes_shape, walk_end, walk_nodes, walk_ok};
use crate::search::{
    all_reached, is_search_path, is_shortest_path, lemma_no_route_no_path, lemma_search_advances,
    lemma_search_begins, lemma_search_ends, lemma_search_meets, lemma_search_passes,
    lemma_search_path_is_shortest, lemma_search_path_to_itself, reached, search_at,
};

verus! {

/// Follows `prev` from `end` back to `start` and returns the nodes passed,
/// `start` first.
fn trace_back(
    prev: &HashMap<usize, Option<usize>>,
    start: usize,
    end: usize,
    Ghost(g): Ghost<Map<usize, Seq<usize>>>,
    Ghost(walk): Ghost<Map<usize, Seq<int>>>,
) -> (path: Vec<usize>)
    requires
        all_reached(g, start, prev@, walk),
        prev@.contains_key(end),
    ensures
        path@ == walk_nodes(g, start, walk[end]),
{
    let ghost full = walk_nodes(g, start, walk[end]);
    proof {
        lemma_walk_nodes_shape(g, start, walk[end]);
        assert(reached(g, start, prev@, walk, end));
        assert(full.take(walk[end].len() as int + 1) =~= full);
    }
    let mut rev: Vec<usize> = Vec::new();
    let mut cur = end;
    while cur != start
        invariant
            all_reached(g, start, prev@, walk),
            prev@.contains_key(cur),
            full == walk_nodes(g, start, walk[end]),
            full.len() == walk[end].len() + 1,
            rev@.len() + walk[cur].len() == walk[end].len(),
            walk_nodes(g, start, walk[cur]) == full.take(walk[cur].len() as int + 1),
            forall|k: int| 0 <= k < rev@.len() ==> rev@[k] == full[full.len() - 1 - k],
        decreases walk[cur].len(),
    {
        proof {
            assert(reached(g, start, prev@, walk, cur));
            let from = prev@[cur]->0;
            assert(reached(g, start, prev@, walk, from));
            lemma_walk_nodes_shape(g, start, walk[cur]);
            lemma_walk_nodes_shape(g, start, walk[from]);
            assert(full[walk[cur].len() as int] == cur);
            assert(walk_nodes(g, start, walk[from]) =~= full.take(walk[from].len() as int + 1));
        }
        rev.push(cur);
        let from = match prev.get(&cur) {
            Some(from) => *from,
            None => None,
        };
        match from {
            Some(node) => {
                cur = node;
            },
            None => {},
        }
    }
    proof {
        assert(reached(g, start, prev@, walk, start));
        assert(full[0] == start);
    }
    rev.push(start);
    let mut path: Vec<usize> = Vec::new();
    let mut k = rev.len();
    while k > 0
        invariant
            k <= rev@.len(),
            rev@.len() == full.len(),
            path@.len() == rev@.len() - k,
            forall|j: int| 0 <= j < rev@.len() ==> rev@[j] == full[full.len() - 1 - j],
            forall|j: int| 0 <= j < path@.len() ==> path@[j] == full[j],
        decreases k,
    {
        k -= 1;
        path.push(rev[k]);
    }
    assert(path@ =~= full);
    path
}

/// The path that a breadth-first search finds from `start` to `end`.
///
/// The search follows the edges of each node in the order of its neighbour
/// sequence and keeps, for each node, the node from which it first met it. It
/// stops when it meets `end`. The result is `None` where `start` or `end` is
/// no key of the graph or no path leads from the one to the other; the path
/// from a key to itself is that node alone.
pub fn shortest_path_bfs(adj_list: &HashMap<usize, Vec<usize>>, start: usize, end: usize) -> (result:
    Option<Vec<usize>>)
    ensures
        match result {
            Some(path) => {
                &&& is_search_path(adjacency(adj_list), start, end, path@)
                &&& is_shortest_path(adjacency(adj_list), start, end, path@)
            },
            None => forall|q: Seq<usize>| !connects(adjacency(adj_list), q, start, end),
        },
        start == end && adjacency(adj_list).contains_key(start) ==> (result matches Some(path)
            && path@ == seq![start]),
{
    let ghost g = adjacency(adj_list);
    if !adj_list.contains_key(&start) || !adj_list.contains_key(&end) {
        return None;
    }
    if start == end {
        let mut path: Vec<usize> = Vec::new();
        path.push(start);
        proof {
            assert(path@ =~= seq![start]);
            lemma_search_path_to_itself(g, start);
            lemma_search_path_is_shortest(g, start, start, path@);
        }
        return Some(path);
    }
    let mut prev: HashMap<usize, Option<usize>> = HashMap::new();
    let mut queue: Vec<usize> = Vec::new();
    prev.insert(start, None);
    queue.push(start);
    let ghost mut walk: Map<usize, Seq<int>> = map![start => Seq::<int>::empty()];
    let ghost mut front: Seq<int> = Seq::<int>::empty().push(0);
    proof {
        lemma_search_begins(g, start);
        assert(queue@ =~= seq![start]);
        assert(prev@ =~= map![start => None::<usize>]);
    }
    let mut head: usize = 0;
    while head < queue.len()
        invariant
            g == adjacency(adj_list),
            start != end,
            g.contains_key(start),
            g.contains_key(end),
            !prev@.contains_key(end),
            head <= queue@.len(),
            head < queue@.len() ==> search_at(g, start, queue@, prev@, walk, front, head as int, 0),
            head >= queue@.len() ==> forall|w: Seq<int>|
                walk_ok(g, start, w) ==> prev@.contains_key(#[trigger] walk_end(g, start, w)),
        decreases usize::MAX - head,
    {
        let node = queue[head];
        match adj_list.get(&node) {
            Some(neighbors) => {
                let mut i: usize = 0;
                while i < neighbors.len()
                    invariant
                        g == adjacency(adj_list),
                        start != end,
                        g.contains_key(start),
                        g.contains_key(end),
                        !prev@.contains_key(end),
                        head < queue@.len(),
                        node == queue@[head as int],
                        g.contains_key(node),
                        neighbors@ == g[node],
                        i <= neighbors@.len(),
                        search_at(g, start, queue@, prev@, walk, front, head as int, i as int),
                    decreases neighbors@.len() - i,
                {
                    let next = neighbors[i];
                    if !prev.contains_key(&next) {
                        proof {
                            lemma_search_meets(
                                g,
                                start,
                                queue@,
                                prev@,
                                walk,
                                front,
                                head as int,
                                i as int,
                            );
                        }
                        let ghost met = front;
                        prev.insert(next, Some(node));
                        queue.push(next);
                        proof {
                            walk = walk.insert(next, met);
                            front = walk[node].push(i + 1);
                        }
                        if next == end {
                            let path = trace_back(&prev, start, end, Ghost(g), Ghost(walk));
                            proof {
                                assert(is_route(g, start, end, met));
                                assert(is_first_route(g, start, end, met));
                                lemma_search_path_is_shortest(g, start, end, path@);
                            }
                            return Some(path);
                        }
                    } else {
                        proof {
                            lemma_search_passes(
                                g,
                                start,
                                queue@,
                                prev@,
                                walk,
                                front,
                                head as int,
                                i as int,
                            );
                            front = walk[node].push(i + 1);
                        }
                    }
                    i += 1;
                }
            },
            None => {},
        }
        proof {
            if head + 1 < queue@.len() {
                lemma_search_advances(g, start, queue@, prev@, walk, front, head as int);
                front = walk[queue@[head + 1]].push(0);
            } else {
                assert forall|w: Seq<int>| walk_ok(g, start, w) implies prev@.contains_key(
                    #[trigger] walk_end(g, start, w),
                ) by {
                    lemma_search_ends(g, start, queue@, prev@, walk, front, head as int, w);
                }
            }
        }
        head += 1;
    }
    proof {
        assert forall|w: Seq<int>| !is_route(g, start, end, w) by {
            if is_route(g, start, end, w) {
                assert(prev@.contains_key(walk_end(g, start, w)));
            }
        }
        lemma_no_route_no_path(g, start, end);
    }
    None
}

/// The number of edges of the graph, parallel edges counted each, or `None`
/// where that number is larger than any `usize`.
pub fn checked_total_connections(adj_list: &HashMap<usize, Vec<usize>>) -> (total: Option<usize>)
    ensures
        match total {
            Some(count) => count == total_edge_count(adjacency(adj_list)),
            None => total_edge_count(adjacency(adj_list)) > usize::MAX,
        },
{
    let ghost g = adjacency(adj_list);
    let nodes = node_list(adj_list);
    let mut total: usize = 0;
    let mut i: usize = 0;
    proof {
        lemma_adjacency_nodes(adj_list);
        lemma_part_none(g, nodes@);
        lemma_edge_count_empty();
    }
    while i < nodes.len()
        invariant
            g == adjacency(adj_list),
            g.dom().finite(),
            nodes@.no_duplicates(),
            nodes@.to_set() == g.dom(),
            i <= nodes@.len(),
            edge_slots(part(g, nodes@, i as int)).finite(),
            total == total_edge_count(part(g, nodes@, i as int)),
        decreases nodes@.len() - i,
    {
        let node = nodes[i];
        proof {
            assert(nodes@.to_set().contains(node));
            lemma_part_next(g, nodes@, i as int);
            lemma_edge_count_insert(part(g, nodes@, i as int), node, g[node]);
            lemma_part_edge_count(g, nodes@, i + 1);
        }
        let degree = match adj_list.get(&node) {
            Some(neighbors) => neighbors.len(),
            None => 0,
        };
        match total.checked_add(degree) {
            Some(sum) => {
                total = sum;
            },
            None => {
                return None;
            },
        }
        i += 1;
    }
    proof {
        lemma_part_all(g, nodes@);
    }
    Some(total)
}

/// The number of edges of the graph, parallel edges counted each.
///
/// The number must fit in a `usize`; [`checked_total_connections`] tells
/// whether it does.
pub fn count_total_connections(adj_list: &HashMap<usize, Vec<usize>>) -> (total: usize)
    requires
        total_edge_count(adjacency(adj_list)) <= usize::MAX,
    ensures
        total == total_edge_count(adjacency(adj_list)),
{
    match checked_total_connections(adj_list) {
        Some(total) => total,
        None => 0,
    }
}

/// The `num_nodes` nodes with the most neighbours, in ascending order.
///
/// Of two nodes with the same number of neighbours the smaller ranks first.
/// Where the graph has fewer than `num_nodes` nodes, all of them are
/// returned.
pub fn find_nodes_with_most_neighbors(adj_list: &HashMap<usize, Vec<usize>>, num_nodes: usize) -> (tops:
    Vec<usize>)
    ensures
        is_top_nodes(adjacency(adj_list), num_nodes as nat, tops@),
{
    let ghost g = adjacency(adj_list);
    let nodes = node_list(adj_list);
    proof {
        lemma_adjacency_nodes(adj_list);
        assert forall|node: usize| #[trigger] degree(g, node) <= usize::MAX by {
            if g.contains_key(node) {
                assert(g[node].len() == adj_list@[node].len());
            }
        }
    }
    let mut ranked: Vec<(usize, usize)> = Vec::new();
    let mut i: usize = 0;
    while i < nodes.len()
        invariant
            g == adjacency(adj_list),
            nodes@.to_set() == g.dom(),
            i <= nodes@.len(),
            ranked@.len() == i,
            forall|k: int| 0 <= k < i ==> #[trigger] ranked@[k] == entry(g, nodes@[k]),
        decreases nodes@.len() - i,
    {
        let node = nodes[i];
        proof {
            assert(nodes@.to_set().contains(node));
        }
        let count = match adj_list.get(&node) {
            Some(neighbors) => neighbors.len(),
            None => 0,
        };
        ranked.push((usize::MAX - count, node));
        i += 1;
    }
    let ghost entries = ranked@;
    let ranked = sort_pairs(ranked);
    proof {
        lemma_sorted_entries_rank(g, nodes@, entries, ranked@);
    }
    let wanted = if num_nodes < ranked.len() {
        num_nodes
    } else {
        ranked.len()
    };
    let mut chosen: Vec<(usize, usize)> = Vec::new();
    let mut i: usize = 0;
    while i < wanted
        invariant
            wanted <= ranked@.len(),
            forall|k: int|
                0 <= k < ranked@.len() ==> (#[trigger] ranked@[k]) == entry(g, ranked@[k].1),
            degrees_fit(g),
            i <= wanted,
            chosen@.len() == i,
            forall|k: int| 0 <= k < i ==> #[trigger] chosen@[k] == picked(g, ranked@[k].1),
        decreases wanted - i,
    {
        let pair = ranked[i];
        proof {
            assert(ranked@[i as int] == entry(g, pair.1));
            assert(degree(g, pair.1) <= usize::MAX);
        }
        chosen.push((pair.1, usize::MAX - pair.0));
        i += 1;
    }
    let ghost unsorted = chosen@;
    let chosen = sort_pairs(chosen);
    let mut tops: Vec<usize> = Vec::new();
    let mut i: usize = 0;
    while i < chosen.len()
        invariant
            i <= chosen@.len(),
            tops@.len() == i,
            forall|k: int| 0 <= k < i ==> #[trigger] tops@[k] == chosen@[k].0,
        decreases chosen@.len() - i,
    {
        tops.push(chosen[i].0);
        i += 1;
    }
    proof {
        lemma_same_pairs(chosen@, unsorted);
        lemma_head_of_ranking_is_top(g, num_nodes as nat, ranked@, unsorted, chosen@, tops@);
    }
    tops
}

/// The distribution of the out-degrees of a graph, in whole numbers.
///
/// The mean degree is `total` divided by `node_count`, and the median is the
/// mean of `median_low` and `median_high`.
#[derive(Debug, Clone, Copy)]
pub struct DegreeSummary {
    /// The number of nodes.
    pub node_count: usize,
    /// The sum of the degrees of all nodes.
    pub total: usize,
    /// The lower of the two middle degrees, or the middle degree.
    pub median_low: usize,
    /// The upper of the two middle degrees, or the middle degree.
    pub median_high: usize,
    /// The degree that most nodes have, the smallest where there are several.
    pub mode: usize,
    /// The largest degree.
    pub max: usize,
    /// The smallest degree.
    pub min: usize,
}

impl DegreeSummary {
    /// The summary is that of the graph `g`. Of a graph without nodes every
    /// number is 0.
    pub open spec fn describes(self, g: Map<usize, Seq<usize>>) -> bool {
        &&& self.node_count == g.dom().len()
        &&& self.total == total_edge_count(g)
        &&& self.node_count == 0 ==> self.median_low == 0 && self.median_high == 0 && self.mode
            == 0 && self.max == 0 && self.min == 0
        &&& self.node_count > 0 ==> {
            &&& is_kth_degree(g, ((self.node_count - 1) / 2) as nat, self.median_low as nat)
            &&& is_kth_degree(g, (self.node_count / 2) as nat, self.median_high as nat)
            &&& is_mode(g, self.mode as nat)
            &&& is_max_degree(g, self.max as nat)
            &&& is_min_degree(g, self.min as nat)
        }
    }
}

/// The distribution of the out-degrees of the graph.
pub fn nodes_info(adj_list: &HashMap<usize, Vec<usize>>) -> (summary: DegreeSummary)
    requires
        total_edge_count(adjacency(adj_list)) <= usize::MAX,
    ensures
        summary.describes(adjacency(adj_list)),
{
    let ghost g = adjacency(adj_list);
    let total = count_total_connections(adj_list);
    let nodes = node_list(adj_list);
    proof {
        lemma_adjacency_nodes(adj_list);
    }
    let mut listing: Vec<(usize, usize)> = Vec::new();
    let mut i: usize = 0;
    while i < nodes.len()
        invariant
            g == adjacency(adj_list),
            nodes@.to_set() == g.dom(),
            i <= nodes@.len(),
            listing@.len() == i,
            forall|k: int|
                0 <= k < i ==> (#[trigger] listing@[k]).1 == nodes@[k] && listing@[k].0 == degree(
                    g,
                    nodes@[k],
                ),
        decreases nodes@.len() - i,
    {
        let node = nodes[i];
        proof {
            assert(nodes@.to_set().contains(node));
        }
        let count = match adj_list.get(&node) {
            Some(neighbors) => neighbors.len(),
            None => 0,
        };
        listing.push((count, node));
        i += 1;
    }
    let ghost entries = listing@;
    let listing = sort_pairs(listing);
    proof {
        lemma_sorted_degrees_list(g, nodes@, entries, listing@);
    }
    let n = listing.len();
    if n == 0 {
        return DegreeSummary {
            node_count: 0,
            total,
            median_low: 0,
            median_high: 0,
            mode: 0,
            max: 0,
            min: 0,
        };
    }
    let mut best: usize = 0;
    let mut best_len: usize = 0;
    let mut start: usize = 0;
    let mut i: usize = 1;
    while i < n
        invariant
            is_degree_listing(g, listing@),
            n == listing@.len(),
            start < i <= n,
            forall|k: int| start <= k < i ==> (#[trigger] listing@[k]).0 == listing@[start as int].0,
            start > 0 ==> listing@[start - 1].0 < listing@[start as int].0 && is_mode_below(
                g,
                listing@[start as int].0 as nat,
                best as nat,
                best_len as nat,
            ),
            start == 0 ==> best_len == 0,
        decreases n - i,
    {
        if listing[i].0 != listing[start].0 {
            proof {
                lemma_listing_ascends(g, listing@, start as int, i as int);
                lemma_mode_after_run(
                    g,
                    listing@,
                    start as int,
                    i as int,
                    best as nat,
                    best_len as nat,
                    listing@[i as int].0 as nat,
                );
            }
            if i - start > best_len {
                best = listing[start].0;
                best_len = i - start;
            }
            start = i;
        }
        i += 1;
    }
    proof {
        lemma_mode_after_run(
            g,
            listing@,
            start as int,
            n as int,
            best as nat,
            best_len as nat,
            listing@[start as int].0 as nat + 1,
        );
    }
    if n - start > best_len {
        best = listing[start].0;
        best_len = n - start;
    }
    proof {
        assert(listing@[n - 1].0 == listing@[start as int].0);
        lemma_mode_of_all(g, listing@, best as nat, best_len as nat);
        lemma_extreme_degrees(g, listing@);
        lemma_kth_degree(g, listing@, ((n - 1) / 2) as int);
        lemma_kth_degree(g, listing@, (n / 2) as int);
    }
    DegreeSummary {
        node_count: n,
        total,
        median_low: listing[(n - 1) / 2].0,
        median_high: listing[n / 2].0,
        mode: best,
        max: listing[n - 1].0,
        min: listing[0].0,
    }
}

/// The share of the edges that belong to a bidirectional pair, in whole
/// per cent, rounded down: each of `pair_count` pairs accounts for two of
/// `edge_count` edges. Of no edges the share is 0.
pub fn bidirectional_percentage(pair_count: usize, edge_count: usize) -> (percent: u128)
    ensures
        edge_count == 0 ==> percent == 0,
        edge_count > 0 ==> percent == (200 * pair_count) / (edge_count as int),
{
    if edge_count == 0 {
        0
    } else {
        200u128 * (pair_count as u128) / (edge_count as u128)
    }
}

/// Whether `list` holds `node`.
fn list_contains(list: &Vec<usize>, node: usize) -> (found: bool)
    ensures
        found == list@.contains(node),
{
    let mut i: usize = 0;
    while i < list.len()
        invariant
            i <= list@.len(),
            forall|k: int| 0 <= k < i ==> list@[k] != node,
        decreases list@.len() - i,
    {
        if list[i] == node {
            return true;
        }
        i += 1;
    }
    false
}

/// The pairs of nodes between which edges run both ways.
///
/// Each pair is given once, its smaller node first, and the pairs are in
/// ascending order.
pub fn find_undirected_edges(adj_list: &HashMap<usize, Vec<usize>>) -> (pairs: Vec<(usize, usize)>)
    ensures
        is_strictly_sorted(pairs@),
        pairs@.to_set() == bidirectional_pairs(adjacency(adj_list)),
        pairs@.len() == bidirectional_pairs(adjacency(adj_list)).len(),
{
    let ghost g = adjacency(adj_list);
    let nodes = node_list(adj_list);
    let mut found: Vec<(usize, usize)> = Vec::new();
    let mut i: usize = 0;
    proof {
        lemma_adjacency_nodes(adj_list);
    }
    while i < nodes.len()
        invariant
            g == adjacency(adj_list),
            nodes@.to_set() == g.dom(),
            i <= nodes@.len(),
            forall|k: int|
                0 <= k < found@.len() ==> bidirectional_pairs(g).contains(#[trigger] found@[k]),
            forall|p: (usize, usize)| #[trigger]
                bidirectional_pairs(g).contains(p) && nodes@.take(i as int).contains(p.0)
                    ==> found@.contains(p),
        decreases nodes@.len() - i,
    {
        let a = nodes[i];
        proof {
            assert(nodes@.to_set().contains(a));
        }
        match adj_list.get(&a) {
            Some(neighbors) => {
                let mut j: usize = 0;
                while j < neighbors.len()
                    invariant
                        g == adjacency(adj_list),
                        i < nodes@.len(),
                        a == nodes@[i as int],
                        g.contains_key(a),
                        neighbors@ == g[a],
                        j <= neighbors@.len(),
                        forall|k: int|
                            0 <= k < found@.len() ==> bidirectional_pairs(g).contains(
                                #[trigger] found@[k],
                            ),
                        forall|p: (usize, usize)| #[trigger]
                            bidirectional_pairs(g).contains(p) && nodes@.take(i as int).contains(
                                p.0,
                            ) ==> found@.contains(p),
                        forall|p: (usize, usize)| #[trigger]
                            bidirectional_pairs(g).contains(p) && p.0 == a && neighbors@.take(
                                j as int,
                            ).contains(p.1) ==> found@.contains(p),
                    decreases neighbors@.len() - j,
                {
                    let b = neighbors[j];
                    let ghost before = found@;
                    let mut both_ways = false;
                    if a < b {
                        match adj_list.get(&b) {
                            Some(back) => {
                                both_ways = list_contains(back, a);
                            },
                            None => {},
                        }
                    }
                    if both_ways {
                        found.push((a, b));
                    }
                    proof {
                        assert(g[a][j as int] == b);
                        assert(has_edge(g, a, b));
                        assert(both_ways == bidirectional_pairs(g).contains((a, b)));
                        assert forall|p: (usize, usize)| before.contains(p) implies found@.contains(
                            p,
                        ) by {
                            let k = choose|k: int| 0 <= k < before.len() && before[k] == p;
                            assert(found@[k] == p);
                        }
                        assert forall|p: (usize, usize)| #[trigger]
                            bidirectional_pairs(g).contains(p) && p.0 == a && neighbors@.take(
                                j + 1,
                            ).contains(p.1) implies found@.contains(p) by {
                            let seen = neighbors@.take(j + 1);
                            let k = choose|k: int| 0 <= k < seen.len() && seen[k] == p.1;
                            if k < j {
                                assert(neighbors@.take(j as int)[k] == p.1);
                                assert(neighbors@.take(j as int).contains(p.1));
                            } else {
                                assert(p == (a, b));
                                assert(found@[before.len() as int] == p);
                            }
                        }
                    }
                    j += 1;
                }
                proof {
                    assert(neighbors@.take(j as int) =~= neighbors@);
                }
            },
            None => {},
        }
        proof {
            assert forall|p: (usize, usize)| #[trigger]
                bidirectional_pairs(g).contains(p) && nodes@.take(i + 1).contains(
                    p.0,
                ) implies found@.contains(p) by {
                let seen = nodes@.take(i + 1);
                let k = choose|k: int| 0 <= k < seen.len() && seen[k] == p.0;
                if k < i {
                    assert(nodes@.take(i as int)[k] == p.0);
                    assert(nodes@.take(i as int).contains(p.0));
                } else {
                    assert(p.0 == a);
                    assert(has_edge(g, a, p.1));
                }
            }
        }
        i += 1;
    }
    proof {
        assert(nodes@.take(i as int) =~= nodes@);
        assert forall|p: (usize, usize)| found@.to_set().contains(p) <==> bidirectional_pairs(
            g,
        ).contains(p) by {
            if found@.contains(p) {
                let k = choose|k: int| 0 <= k < found@.len() && found@[k] == p;
                assert(bidirectional_pairs(g).contains(found@[k]));
            }
            if bidirectional_pairs(g).contains(p) {
                assert(has_edge(g, p.0, p.1));
                assert(nodes@.to_set().contains(p.0));
            }
        }
        assert(found@.to_set() =~= bidirectional_pairs(g));
    }
    let ghost unsorted = found@;
    let found = sort_pairs(found);
    proof {
        lemma_same_pairs(found@, unsorted);
    }
    let pairs = without_repeats(&found);
    proof {
        lemma_strictly_sorted_len(pairs@);
    }
    pairs
}

} // verus!
