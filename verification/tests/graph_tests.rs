use std::collections::HashMap;
use std::collections::HashSet;

use road_graph::adjacencylist_convert::{collect_unique_nodes, create_adjacency_list, RoadRecord};
use road_graph::parsing::parse_record;
use road_graph::algorithms::{
    bidirectional_percentage, count_total_connections, find_nodes_with_most_neighbors,
    find_undirected_edges, nodes_info, shortest_path_bfs,
};

fn create_linear_graph() -> HashMap<usize, Vec<usize>> {
    let mut adj_list = HashMap::new();
    adj_list.insert(1, vec![2, 3]);
    adj_list.insert(2, vec![3]);
    adj_list.insert(3, vec![1, 4]);
    adj_list.insert(4, vec![]);
    adj_list
}

fn graph_from_edges(edges: &[(usize, usize)]) -> HashMap<usize, Vec<usize>> {
    let records: Vec<RoadRecord> = edges.iter().map(|&(s, t)| RoadRecord::new(s, t)).collect();
    let nodes = collect_unique_nodes(&records);
    create_adjacency_list(&records, &nodes)
}

fn info_as_fractions(adj_list: &HashMap<usize, Vec<usize>>) -> (f64, f64, f64, f64, f64) {
    let summary = nodes_info(adj_list);
    if summary.node_count == 0 {
        return (0.0, 0.0, 0.0, 0.0, 0.0);
    }
    let mean = summary.total as f64 / summary.node_count as f64;
    let median = (summary.median_low + summary.median_high) as f64 / 2.0;
    (mean, median, summary.mode as f64, summary.max as f64, summary.min as f64)
}

#[test]
fn test_shortest_path_on_linear_graph() {
    let graph = create_linear_graph();
    let path = shortest_path_bfs(&graph, 1, 4).unwrap();
    assert_eq!(path, vec![1, 3, 4]);
}

#[test]
fn test_most_neighbors_nodes() {
    let graph = create_linear_graph();
    let top_node = find_nodes_with_most_neighbors(&graph, 2);
    assert_eq!(top_node, [1, 3])
}

#[test]
fn test_info_correctnness() {
    let graph = create_linear_graph();
    let (mean, median, mode, max, min) = info_as_fractions(&graph);
    assert_eq!(mean, 1.25);
    assert_eq!(median, 1.5);
    assert_eq!(mode, 2.0);
    assert_eq!(max, 2.0);
    assert_eq!(min, 0.0)
}

#[test]
fn test_bidirectional_path() {
    let graph = create_linear_graph();
    let bi_nodes = find_undirected_edges(&graph);
    let num_pairs = bi_nodes.len() as f64;
    let total_num_connections = count_total_connections(&graph);
    let percentage = 2.0 * num_pairs as f64 / (total_num_connections as f64);
    assert_eq!(percentage, 0.4);
}

#[test]
fn record_keeps_source_and_target() {
    let record = RoadRecord::new(7, 9);
    assert_eq!(record.source, 7);
    assert_eq!(record.target, 9);
}

#[test]
fn unique_nodes_are_sources_and_targets() {
    let records = vec![RoadRecord::new(1, 2), RoadRecord::new(1, 3), RoadRecord::new(5, 1)];
    let nodes = collect_unique_nodes(&records);
    let expected: HashSet<usize> = [1, 2, 3, 5].into_iter().collect();
    assert_eq!(nodes, expected);
}

#[test]
fn built_graph_has_every_node_as_key() {
    let graph = graph_from_edges(&[(1, 2), (1, 3), (2, 3), (3, 1), (3, 4)]);
    assert_eq!(graph.len(), 4);
    assert_eq!(graph[&1], vec![2, 3]);
    assert_eq!(graph[&2], vec![3]);
    assert_eq!(graph[&3], vec![1, 4]);
    assert_eq!(graph[&4], Vec::<usize>::new());
}

#[test]
fn built_graph_keeps_parallel_edges_in_order() {
    let graph = graph_from_edges(&[(1, 2), (1, 3), (1, 2), (2, 1)]);
    assert_eq!(graph[&1], vec![2, 3, 2]);
    assert_eq!(graph[&2], vec![1]);
    assert_eq!(graph[&3], Vec::<usize>::new());
    assert_eq!(count_total_connections(&graph), 4);
}

#[test]
fn built_graph_keeps_extra_nodes() {
    let records = vec![RoadRecord::new(1, 2)];
    let nodes: HashSet<usize> = [1, 2, 8].into_iter().collect();
    let graph = create_adjacency_list(&records, &nodes);
    assert_eq!(graph.len(), 3);
    assert_eq!(graph[&1], vec![2]);
    assert_eq!(graph[&8], Vec::<usize>::new());
}

#[test]
fn empty_edge_list_gives_empty_graph() {
    let records: Vec<RoadRecord> = Vec::new();
    let nodes = collect_unique_nodes(&records);
    assert!(nodes.is_empty());
    let graph = create_adjacency_list(&records, &nodes);
    assert!(graph.is_empty());
    assert_eq!(info_as_fractions(&graph), (0.0, 0.0, 0.0, 0.0, 0.0));
    let summary = nodes_info(&graph);
    assert_eq!(summary.node_count, 0);
    assert_eq!(summary.total, 0);
    assert_eq!(shortest_path_bfs(&graph, 0, 0), None);
    assert_eq!(shortest_path_bfs(&graph, 1, 4), None);
    assert_eq!(find_nodes_with_most_neighbors(&graph, 3), Vec::<usize>::new());
    assert_eq!(find_undirected_edges(&graph), Vec::<(usize, usize)>::new());
    assert_eq!(count_total_connections(&graph), 0);
}

#[test]
fn path_from_a_node_to_itself_is_that_node() {
    let graph = create_linear_graph();
    assert_eq!(shortest_path_bfs(&graph, 1, 1), Some(vec![1]));
    assert_eq!(shortest_path_bfs(&graph, 4, 4), Some(vec![4]));
}

#[test]
fn no_path_from_or_to_a_node_that_is_no_key() {
    let graph = create_linear_graph();
    assert_eq!(shortest_path_bfs(&graph, 9, 9), None);
    assert_eq!(shortest_path_bfs(&graph, 9, 1), None);
    assert_eq!(shortest_path_bfs(&graph, 1, 9), None);
    let mut dangling = HashMap::new();
    dangling.insert(1, vec![2]);
    assert_eq!(shortest_path_bfs(&dangling, 1, 2), None);
}

#[test]
fn no_path_where_none_leads() {
    let graph = create_linear_graph();
    assert_eq!(shortest_path_bfs(&graph, 4, 1), None);
    let mut apart = HashMap::new();
    apart.insert(1, vec![2]);
    apart.insert(2, vec![1]);
    apart.insert(3, vec![]);
    assert_eq!(shortest_path_bfs(&apart, 1, 3), None);
}

#[test]
fn shortest_path_is_minimal() {
    let graph = graph_from_edges(&[(0, 1), (1, 2), (2, 3), (3, 4), (0, 5), (5, 4), (4, 6)]);
    assert_eq!(shortest_path_bfs(&graph, 0, 4), Some(vec![0, 5, 4]));
    assert_eq!(shortest_path_bfs(&graph, 0, 6), Some(vec![0, 5, 4, 6]));
    assert_eq!(shortest_path_bfs(&graph, 1, 6), Some(vec![1, 2, 3, 4, 6]));
}

#[test]
fn shortest_path_follows_neighbor_order() {
    let mut first = HashMap::new();
    first.insert(1, vec![2, 3]);
    first.insert(2, vec![4]);
    first.insert(3, vec![4]);
    first.insert(4, vec![]);
    assert_eq!(shortest_path_bfs(&first, 1, 4), Some(vec![1, 2, 4]));
    let mut second = HashMap::new();
    second.insert(1, vec![3, 2]);
    second.insert(2, vec![4]);
    second.insert(3, vec![4]);
    second.insert(4, vec![]);
    assert_eq!(shortest_path_bfs(&second, 1, 4), Some(vec![1, 3, 4]));
}

#[test]
fn shortest_path_passes_cycles_and_loops() {
    let graph = graph_from_edges(&[(1, 1), (1, 2), (2, 1), (2, 2), (2, 3), (3, 1)]);
    assert_eq!(shortest_path_bfs(&graph, 1, 3), Some(vec![1, 2, 3]));
    assert_eq!(shortest_path_bfs(&graph, 3, 2), Some(vec![3, 1, 2]));
}

#[test]
fn shortest_path_with_sparse_node_ids() {
    let graph = graph_from_edges(&[(1_000_000_007, 5), (5, 4_000_000_000), (4_000_000_000, 12)]);
    assert_eq!(
        shortest_path_bfs(&graph, 1_000_000_007, 12),
        Some(vec![1_000_000_007, 5, 4_000_000_000, 12])
    );
}

#[test]
fn top_nodes_are_ascending_and_as_many_as_asked() {
    let graph = graph_from_edges(&[(5, 1), (5, 2), (5, 3), (9, 1), (9, 2), (7, 1), (2, 1)]);
    assert_eq!(find_nodes_with_most_neighbors(&graph, 0), Vec::<usize>::new());
    assert_eq!(find_nodes_with_most_neighbors(&graph, 1), vec![5]);
    assert_eq!(find_nodes_with_most_neighbors(&graph, 2), vec![5, 9]);
    assert_eq!(find_nodes_with_most_neighbors(&graph, 3), vec![2, 5, 9]);
    assert_eq!(find_nodes_with_most_neighbors(&graph, 4), vec![2, 5, 7, 9]);
    assert_eq!(find_nodes_with_most_neighbors(&graph, 6), vec![1, 2, 3, 5, 7, 9]);
    assert_eq!(find_nodes_with_most_neighbors(&graph, 100), vec![1, 2, 3, 5, 7, 9]);
}

#[test]
fn top_nodes_count_parallel_edges() {
    let graph = graph_from_edges(&[(1, 2), (1, 2), (1, 2), (3, 1), (3, 2)]);
    assert_eq!(find_nodes_with_most_neighbors(&graph, 1), vec![1]);
}

#[test]
fn top_nodes_of_many_nodes() {
    let mut graph = HashMap::new();
    for node in 0..200usize {
        graph.insert(node, vec![0; node % 50]);
    }
    assert_eq!(find_nodes_with_most_neighbors(&graph, 4), vec![49, 99, 149, 199]);
    assert_eq!(find_nodes_with_most_neighbors(&graph, 6), vec![48, 49, 98, 99, 149, 199]);
    let all = find_nodes_with_most_neighbors(&graph, 200);
    assert_eq!(all, (0..200usize).collect::<Vec<usize>>());
}

#[test]
fn undirected_edges_of_small_graph() {
    let graph = create_linear_graph();
    assert_eq!(find_undirected_edges(&graph), vec![(1, 3)]);
}

#[test]
fn undirected_edges_are_given_once_and_in_order() {
    let graph = graph_from_edges(&[
        (7, 2),
        (2, 7),
        (2, 7),
        (7, 2),
        (9, 1),
        (1, 9),
        (1, 2),
        (2, 1),
        (3, 3),
        (4, 5),
    ]);
    assert_eq!(find_undirected_edges(&graph), vec![(1, 2), (1, 9), (2, 7)]);
}

#[test]
fn undirected_edges_of_many_nodes() {
    let mut edges = Vec::new();
    for node in 0..100usize {
        edges.push((node, node + 1));
        if node % 2 == 0 {
            edges.push((node + 1, node));
        }
    }
    let graph = graph_from_edges(&edges);
    let expected: Vec<(usize, usize)> = (0..50usize).map(|k| (2 * k, 2 * k + 1)).collect();
    assert_eq!(find_undirected_edges(&graph), expected);
}

#[test]
fn undirected_edges_need_the_other_node_as_key() {
    let mut graph = HashMap::new();
    graph.insert(1, vec![2]);
    assert_eq!(find_undirected_edges(&graph), Vec::<(usize, usize)>::new());
}

#[test]
fn total_connections_of_small_graph() {
    let graph = create_linear_graph();
    assert_eq!(count_total_connections(&graph), 5);
}

#[test]
fn edges_split_into_pairs_and_one_way_edges() {
    let graph = create_linear_graph();
    let pairs = find_undirected_edges(&graph).len();
    let one_way = 3;
    assert_eq!(count_total_connections(&graph), 2 * pairs + one_way);
}

#[test]
fn percentage_of_small_graph() {
    let graph = create_linear_graph();
    let pairs = find_undirected_edges(&graph).len();
    let total = count_total_connections(&graph);
    assert_eq!(bidirectional_percentage(pairs, total), 40);
}

#[test]
fn percentage_of_no_edges_is_zero() {
    assert_eq!(bidirectional_percentage(0, 0), 0);
    assert_eq!(bidirectional_percentage(3, 0), 0);
}

#[test]
fn percentage_is_rounded_down() {
    assert_eq!(bidirectional_percentage(1, 3), 66);
    assert_eq!(bidirectional_percentage(1, 2), 100);
    assert_eq!(bidirectional_percentage(0, 7), 0);
    assert_eq!(bidirectional_percentage(usize::MAX / 2, usize::MAX), 99);
}

#[test]
fn summary_of_small_graph() {
    let graph = create_linear_graph();
    let summary = nodes_info(&graph);
    assert_eq!(summary.node_count, 4);
    assert_eq!(summary.total, 5);
    assert_eq!(summary.median_low, 1);
    assert_eq!(summary.median_high, 2);
    assert_eq!(summary.mode, 2);
    assert_eq!(summary.max, 2);
    assert_eq!(summary.min, 0);
}

#[test]
fn summary_of_odd_number_of_nodes() {
    let mut graph = HashMap::new();
    graph.insert(10, vec![1, 2, 3]);
    graph.insert(20, vec![]);
    graph.insert(30, vec![7]);
    let summary = nodes_info(&graph);
    assert_eq!(summary.node_count, 3);
    assert_eq!(summary.total, 4);
    assert_eq!(summary.median_low, 1);
    assert_eq!(summary.median_high, 1);
    assert_eq!(summary.max, 3);
    assert_eq!(summary.min, 0);
    assert_eq!(info_as_fractions(&graph).1, 1.0);
}

#[test]
fn summary_mode_is_smallest_of_ties() {
    let mut graph = HashMap::new();
    graph.insert(1, vec![0, 0, 0]);
    graph.insert(2, vec![0, 0, 0]);
    graph.insert(3, vec![0]);
    graph.insert(4, vec![0]);
    graph.insert(5, vec![0, 0]);
    let summary = nodes_info(&graph);
    assert_eq!(summary.mode, 1);
    let mut later = HashMap::new();
    later.insert(1, vec![0]);
    later.insert(2, vec![0, 0]);
    later.insert(3, vec![0, 0]);
    later.insert(4, vec![0, 0, 0, 0]);
    assert_eq!(nodes_info(&later).mode, 2);
}

#[test]
fn summary_of_single_node() {
    let mut graph = HashMap::new();
    graph.insert(3, vec![3, 3]);
    let summary = nodes_info(&graph);
    assert_eq!(summary.node_count, 1);
    assert_eq!(summary.total, 2);
    assert_eq!(summary.median_low, 2);
    assert_eq!(summary.median_high, 2);
    assert_eq!(summary.mode, 2);
    assert_eq!(summary.max, 2);
    assert_eq!(summary.min, 2);
}

fn parsed(text: &str) -> Option<(usize, usize)> {
    parse_record(text.as_bytes()).map(|record| (record.source, record.target))
}

#[test]
fn line_with_two_numbers_is_an_edge() {
    assert_eq!(parsed("1\t2"), Some((1, 2)));
    assert_eq!(parsed("0\t0"), Some((0, 0)));
    assert_eq!(parsed("1090919\t7634"), Some((1090919, 7634)));
    assert_eq!(parsed("007\t08"), Some((7, 8)));
    assert_eq!(parsed("+5\t+6"), Some((5, 6)));
}

#[test]
fn line_with_more_fields_is_an_edge_of_the_first_two() {
    assert_eq!(parsed("1\t2\t3"), Some((1, 2)));
    assert_eq!(parsed("1\t2\t"), Some((1, 2)));
    assert_eq!(parsed("1\t2\tx y"), Some((1, 2)));
}

#[test]
fn line_with_one_field_is_no_edge() {
    assert_eq!(parsed(""), None);
    assert_eq!(parsed("12"), None);
    assert_eq!(parsed("1 2"), None);
}

#[test]
fn line_with_a_field_that_is_no_number_is_no_edge() {
    assert_eq!(parsed("1\t"), None);
    assert_eq!(parsed("\t2"), None);
    assert_eq!(parsed("1\t\t2"), None);
    assert_eq!(parsed("a\t2"), None);
    assert_eq!(parsed("1\t2a"), None);
    assert_eq!(parsed("1\t-2"), None);
    assert_eq!(parsed("+\t2"), None);
    assert_eq!(parsed("1\t++2"), None);
    assert_eq!(parsed("1\t 2"), None);
    assert_eq!(parsed("1.5\t2"), None);
}

#[test]
fn line_with_a_number_that_is_too_large_is_no_edge() {
    let largest = usize::MAX.to_string();
    assert_eq!(parsed(&format!("{}\t1", largest)), Some((usize::MAX, 1)));
    assert_eq!(parsed(&format!("1\t{}", largest)), Some((1, usize::MAX)));
    assert_eq!(parsed(&format!("{}0\t1", largest)), None);
    assert_eq!(parsed("1\t340282366920938463463374607431768211456"), None);
    assert_eq!(parsed("99999999999999999999999999x\t1"), None);
}

#[test]
fn parsing_agrees_with_the_standard_library() {
    for text in ["12", "+12", "-12", "", "+", "1_000", "18446744073709551616", "000", "9"] {
        let line = format!("{}\t{}", text, text);
        let expected = text.parse::<usize>().ok().map(|value| (value, value));
        assert_eq!(parsed(&line), expected);
    }
}
