//! The nodes of an adjacency list, one after the other.

use std::collections::HashMap;
use vstd::prelude::*;
use vstd::std_specs::hash::spec_keys_iter;
use vstd::std_specs::iter::IteratorSpec;

verus! {

/// The keys of `adj_list`, each once, in the order in which the map hands
/// them out.
pub(crate) fn node_list(adj_list: &HashMap<usize, Vec<usize>>) -> (nodes: Vec<usize>)
    ensures
        nodes@.no_duplicates(),
        nodes@.to_set() == adj_list@.dom(),
        nodes@.len() == adj_list@.dom().len(),
{
    let mut nodes: Vec<usize> = Vec::new();
    for key in it: adj_list.keys()
        invariant
            it.seq() == spec_keys_iter(adj_list).remaining(),
            nodes@.len() == it.index(),
            forall|j: int| 0 <= j < nodes@.len() ==> nodes@[j] == *it.seq()[j],
    {
        nodes.push(*key);
    }
    proof {
        let keys = spec_keys_iter(adj_list).remaining();
        assert(nodes@ =~= keys.unref());
        assert forall|a: int, b: int| 0 <= a < nodes@.len() && 0 <= b < nodes@.len() && a
            != b implies nodes@[a] != nodes@[b] by {
            assert(keys[a] != keys[b]);
        }
    }
    nodes
}

} // verus!
