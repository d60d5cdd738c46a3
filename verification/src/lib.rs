//! Graph statistics over a directed road network held as an adjacency list.
//!
//! A network is given as a list of directed edges. [`parsing`] reads an edge
//! from a line of text, [`adjacencylist_convert`] turns a list of edges into
//! an adjacency list, and [`algorithms`] answers questions about it: shortest
//! routes, the best connected nodes, the distribution of out-degrees and the
//! roads that run in both directions.
//!
//! Every function carries a contract over the mathematical model in
//! [`model`], and Verus proves that the function keeps it. The other modules
//! hold what the contracts speak of and the lemmas that the proofs rest on:
//! [`paths`] and [`search`] for shortest routes, [`ranking`] for the best
//! connected nodes, [`degrees`] for the distribution of out-degrees, [`edges`]
//! for the number of edges and [`sorting`] for pairs in ascending order.

pub mod adjacencylist_convert;
pub mod algorithms;
pub mod degrees;
pub mod edges;
pub mod model;
mod nodes;
pub mod parsing;
pub mod paths;
pub mod ranking;
pub mod search;
pub mod sorting;
