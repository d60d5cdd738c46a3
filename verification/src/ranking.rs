//! The best connected nodes of a graph.

use vstd::prelude::*;
use vstd::set_lib::lemma_len_subset;
use crate::model::degree;
use crate::sorting::{is_sorted, lemma_same_pairs, pair_le};

verus! {

/// `a` ranks before `b`: more edges leave it, or as many and it is the
/// smaller node.
pub open spec fn ranks_before(g: Map<usize, Seq<usize>>, a: usize, b: usize) -> bool {
    degree(g, a) > degree(g, b) || (degree(g, a) == degree(g, b) && a < b)
}

/// The nodes of `s` are in ascending order, none of them twice.
pub open spec fn is_ascending(s: Seq<usize>) -> bool {
    forall|i: int, j: int| 0 <= i < j < s.len() ==> #[trigger] s[i] < #[trigger] s[j]
}

/// The smaller of `count` and the number of nodes of `g`.
pub open spec fn top_len(g: Map<usize, Seq<usize>>, count: nat) -> nat {
    if count <= g.dom().len() {
        count
    } else {
        g.dom().len()
    }
}

/// `s` holds, in ascending order, the `count` nodes of `g` that rank first,
/// or all its nodes where they are fewer.
pub open spec fn is_top_nodes(g: Map<usize, Seq<usize>>, count: nat, s: Seq<usize>) -> bool {
    &&& is_ascending(s)
    &&& s.len() == top_len(g, count)
    &&& forall|i: int| 0 <= i < s.len() ==> g.contains_key(#[trigger] s[i])
    &&& forall|a: usize, b: usize|
        #![trigger s.contains(a), s.contains(b)]
        s.contains(a) && g.contains_key(b) && !s.contains(b) ==> ranks_before(g, a, b)
}

/// What the ranking holds of a node: the number of edges by which it falls
/// short of the largest number there can be, and the node. In ascending order
/// of these pairs the nodes stand as they rank.
pub open spec fn entry(g: Map<usize, Seq<usize>>, node: usize) -> (usize, usize) {
    ((usize::MAX - degree(g, node)) as usize, node)
}

/// What is kept of a node that was picked: the node and the number of its
/// edges.
pub open spec fn picked(g: Map<usize, Seq<usize>>, node: usize) -> (usize, usize) {
    (node, degree(g, node) as usize)
}

/// No node has more edges than a sequence can be long.
pub open spec fn degrees_fit(g: Map<usize, Seq<usize>>) -> bool {
    forall|node: usize| #[trigger] degree(g, node) <= usize::MAX
}

/// `ranked` holds the entry of every node of `g` once, in the order in which
/// the nodes rank.
pub open spec fn is_ranking(g: Map<usize, Seq<usize>>, ranked: Seq<(usize, usize)>) -> bool {
    &&& ranked.len() == g.dom().len()
    &&& forall|k: int|
        0 <= k < ranked.len() ==> g.contains_key((#[trigger] ranked[k]).1) && ranked[k] == entry(
            g,
            ranked[k].1,
        )
    &&& forall|a: int, b: int|
        0 <= a < b < ranked.len() ==> ranks_before(g, (#[trigger] ranked[a]).1, (#[trigger] ranked[b]).1)
    &&& forall|node: usize|
        g.contains_key(node) ==> exists|k: int|
            0 <= k < ranked.len() && (#[trigger] ranked[k]).1 == node
}

/// The entries of all nodes, put in ascending order, are a ranking.
pub proof fn lemma_sorted_entries_rank(
    g: Map<usize, Seq<usize>>,
    nodes: Seq<usize>,
    entries: Seq<(usize, usize)>,
    ranked: Seq<(usize, usize)>,
)
    requires
        degrees_fit(g),
        nodes.no_duplicates(),
        nodes.to_set() == g.dom(),
        nodes.len() == g.dom().len(),
        entries.len() == nodes.len(),
        forall|k: int| 0 <= k < nodes.len() ==> #[trigger] entries[k] == entry(g, nodes[k]),
        ranked.to_multiset() == entries.to_multiset(),
        is_sorted(ranked),
    ensures
        is_ranking(g, ranked),
{
    lemma_same_pairs(ranked, entries);
    assert(entries.no_duplicates()) by {
        assert forall|a: int, b: int| 0 <= a < entries.len() && 0 <= b < entries.len() && a
            != b implies entries[a] != entries[b] by {
            assert(entries[a].1 == nodes[a]);
            assert(entries[b].1 == nodes[b]);
        }
    }
    assert forall|k: int| 0 <= k < ranked.len() implies g.contains_key((#[trigger] ranked[k]).1)
        && ranked[k] == entry(g, ranked[k].1) by {
        assert(ranked.contains(ranked[k]));
        assert(entries.contains(ranked[k]));
        let m = choose|m: int| 0 <= m < entries.len() && entries[m] == ranked[k];
        assert(entries[m] == entry(g, nodes[m]));
        assert(nodes.to_set().contains(nodes[m]));
    }
    assert forall|a: int, b: int| 0 <= a < b < ranked.len() implies ranks_before(
        g,
        (#[trigger] ranked[a]).1,
        (#[trigger] ranked[b]).1,
    ) by {
        assert(pair_le(ranked[a], ranked[b]));
        assert(ranked[a] != ranked[b]);
        assert(ranked[a] == entry(g, ranked[a].1));
        assert(ranked[b] == entry(g, ranked[b].1));
        assert(degree(g, ranked[a].1) <= usize::MAX);
        assert(degree(g, ranked[b].1) <= usize::MAX);
    }
    assert forall|node: usize| g.contains_key(node) implies exists|k: int|
        0 <= k < ranked.len() && (#[trigger] ranked[k]).1 == node by {
        assert(nodes.to_set().contains(node));
        let m = choose|m: int| 0 <= m < nodes.len() && nodes[m] == node;
        assert(entries[m] == entry(g, node));
        assert(entries.contains(entry(g, node)));
        assert(ranked.contains(entry(g, node)));
        let k = choose|k: int| 0 <= k < ranked.len() && ranked[k] == entry(g, node);
        assert(ranked[k].1 == node);
    }
}

/// The nodes at the head of a ranking, put in ascending order, are the top
/// nodes.
pub proof fn lemma_head_of_ranking_is_top(
    g: Map<usize, Seq<usize>>,
    count: nat,
    ranked: Seq<(usize, usize)>,
    chosen: Seq<(usize, usize)>,
    sorted: Seq<(usize, usize)>,
    tops: Seq<usize>,
)
    requires
        is_ranking(g, ranked),
        chosen.len() == top_len(g, count),
        forall|k: int| 0 <= k < chosen.len() ==> #[trigger] chosen[k] == picked(g, ranked[k].1),
        sorted.to_multiset() == chosen.to_multiset(),
        is_sorted(sorted),
        tops.len() == sorted.len(),
        forall|k: int| 0 <= k < tops.len() ==> #[trigger] tops[k] == sorted[k].0,
    ensures
        is_top_nodes(g, count, tops),
{
    lemma_same_pairs(sorted, chosen);
    assert(chosen.no_duplicates()) by {
        assert forall|a: int, b: int| 0 <= a < chosen.len() && 0 <= b < chosen.len() && a
            != b implies chosen[a] != chosen[b] by {
            assert(chosen[a].0 == ranked[a].1);
            assert(chosen[b].0 == ranked[b].1);
            if a < b {
                assert(ranks_before(g, ranked[a].1, ranked[b].1));
            } else {
                assert(ranks_before(g, ranked[b].1, ranked[a].1));
            }
        }
    }
    // Each pair that was sorted stands for a node at the head of the ranking.
    assert forall|i: int| 0 <= i < sorted.len() implies chosen.contains(#[trigger] sorted[i]) by {
        assert(sorted.contains(sorted[i]));
    }
    assert forall|i: int| 0 <= i < tops.len() implies g.contains_key(#[trigger] tops[i]) by {
        assert(chosen.contains(sorted[i]));
        let m = choose|m: int| 0 <= m < chosen.len() && chosen[m] == sorted[i];
        assert(chosen[m] == picked(g, ranked[m].1));
        assert(g.contains_key(ranked[m].1));
    }
    assert forall|i: int, j: int| 0 <= i < j < tops.len() implies #[trigger] tops[i]
        < #[trigger] tops[j] by {
        assert(pair_le(sorted[i], sorted[j]));
        assert(sorted[i] != sorted[j]);
        assert(chosen.contains(sorted[i]));
        assert(chosen.contains(sorted[j]));
        let m = choose|m: int| 0 <= m < chosen.len() && chosen[m] == sorted[i];
        let n = choose|n: int| 0 <= n < chosen.len() && chosen[n] == sorted[j];
        assert(chosen[m] == picked(g, ranked[m].1));
        assert(chosen[n] == picked(g, ranked[n].1));
    }
    assert forall|a: usize, b: usize|
        tops.contains(a) && g.contains_key(b) && !tops.contains(b) implies ranks_before(
        g,
        a,
        b,
    ) by {
        let i = choose|i: int| 0 <= i < tops.len() && tops[i] == a;
        assert(chosen.contains(sorted[i]));
        let m = choose|m: int| 0 <= m < chosen.len() && chosen[m] == sorted[i];
        assert(chosen[m] == picked(g, ranked[m].1));
        assert(ranked[m].1 == a);
        let n = choose|n: int| 0 <= n < ranked.len() && (#[trigger] ranked[n]).1 == b;
        if n < chosen.len() {
            assert(chosen[n] == picked(g, b));
            assert(chosen.contains(chosen[n]));
            assert(sorted.contains(chosen[n]));
            let j = choose|j: int| 0 <= j < sorted.len() && sorted[j] == chosen[n];
            assert(tops[j] == b);
            assert(false);
        }
        assert(ranks_before(g, ranked[m].1, ranked[n].1));
    }
}

/// An ascending sequence holds no node twice.
pub proof fn lemma_ascending_no_duplicates(s: Seq<usize>)
    requires
        is_ascending(s),
    ensures
        s.no_duplicates(),
        s.len() == s.to_set().len(),
{
    assert forall|i: int, j: int| 0 <= i < s.len() && 0 <= j < s.len() && i != j implies s[i]
        != s[j] by {
        if i < j {
            assert(s[i] < s[j]);
        } else {
            assert(s[j] < s[i]);
        }
    }
    s.unique_seq_to_set();
}

/// Two ascending sequences that hold the same nodes are the same sequence.
pub proof fn lemma_ascending_unique(s: Seq<usize>, t: Seq<usize>)
    requires
        is_ascending(s),
        is_ascending(t),
        s.to_set() == t.to_set(),
    ensures
        s == t,
    decreases s.len(),
{
    lemma_ascending_no_duplicates(s);
    lemma_ascending_no_duplicates(t);
    if s.len() > 0 {
        let x = s.last();
        let y = t.last();
        assert(s.to_set().contains(x));
        assert(t.to_set().contains(y));
        assert(t.contains(x));
        assert(s.contains(y));
        let i = choose|i: int| 0 <= i < t.len() && t[i] == x;
        let j = choose|j: int| 0 <= j < s.len() && s[j] == y;
        if i < t.len() - 1 {
            assert(t[i] < t[t.len() - 1]);
        }
        if j < s.len() - 1 {
            assert(s[j] < s[s.len() - 1]);
        }
        assert(x == y);
        let s0 = s.drop_last();
        let t0 = t.drop_last();
        assert forall|node: usize| s0.to_set().contains(node) <==> t0.to_set().contains(node) by {
            if s0.contains(node) {
                let k = choose|k: int| 0 <= k < s0.len() && s0[k] == node;
                assert(s[k] < s[s.len() - 1]);
                assert(s.to_set().contains(node));
                assert(t.contains(node));
                let m = choose|m: int| 0 <= m < t.len() && t[m] == node;
                assert(t0[m] == node);
            }
            if t0.contains(node) {
                let k = choose|k: int| 0 <= k < t0.len() && t0[k] == node;
                assert(t[k] < t[t.len() - 1]);
                assert(t.to_set().contains(node));
                assert(s.contains(node));
                let m = choose|m: int| 0 <= m < s.len() && s[m] == node;
                assert(s0[m] == node);
            }
        }
        assert(s0.to_set() =~= t0.to_set());
        lemma_ascending_unique(s0, t0);
        assert(s =~= s0.push(x));
        assert(t =~= t0.push(y));
    } else {
        assert(s =~= t);
    }
}

/// Every node of the one of two sequences of top nodes is a node of the
/// other.
proof fn lemma_top_nodes_within(g: Map<usize, Seq<usize>>, count: nat, s: Seq<usize>, t: Seq<usize>)
    requires
        is_top_nodes(g, count, s),
        is_top_nodes(g, count, t),
    ensures
        s.to_set().subset_of(t.to_set()),
{
    lemma_ascending_no_duplicates(s);
    lemma_ascending_no_duplicates(t);
    assert forall|a: usize| s.to_set().contains(a) implies t.to_set().contains(a) by {
        if !t.contains(a) {
            // Then some node of `t` is none of `s`, and each of the two
            // would rank before the other.
            if t.to_set().subset_of(s.to_set().remove(a)) {
                lemma_len_subset(t.to_set(), s.to_set().remove(a));
                assert(false);
            }
            let b = choose|b: usize| t.to_set().contains(b) && !s.to_set().remove(a).contains(b);
            assert(t.contains(b) && !s.contains(b));
            let i = choose|i: int| 0 <= i < s.len() && s[i] == a;
            let j = choose|j: int| 0 <= j < t.len() && t[j] == b;
            assert(g.contains_key(s[i]));
            assert(g.contains_key(t[j]));
            assert(ranks_before(g, a, b));
            assert(ranks_before(g, b, a));
        }
    }
}

/// A graph has one sequence of top nodes and no other.
pub proof fn lemma_top_nodes_unique(
    g: Map<usize, Seq<usize>>,
    count: nat,
    s: Seq<usize>,
    t: Seq<usize>,
)
    requires
        is_top_nodes(g, count, s),
        is_top_nodes(g, count, t),
    ensures
        s == t,
{
    lemma_top_nodes_within(g, count, s, t);
    lemma_top_nodes_within(g, count, t, s);
    assert(s.to_set() =~= t.to_set());
    lemma_ascending_unique(s, t);
}

} // verus!
