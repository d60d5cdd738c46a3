//! The distribution of the out-degrees of a graph.

use vstd::prelude::*;
use vstd::set_lib::{lemma_len_subset, lemma_set_subset_finite};
use crate::model::degree;
use crate::sorting::{is_sorted, lemma_same_pairs, pair_le};

verus! {

/// The nodes that exactly `d` edges leave.
pub open spec fn nodes_with_degree(g: Map<usize, Seq<usize>>, d: nat) -> Set<usize> {
    Set::new(|node: usize| g.contains_key(node) && degree(g, node) == d)
}

/// The nodes that fewer than `d` edges leave.
pub open spec fn nodes_below(g: Map<usize, Seq<usize>>, d: nat) -> Set<usize> {
    Set::new(|node: usize| g.contains_key(node) && degree(g, node) < d)
}

/// How many nodes exactly `d` edges leave.
pub open spec fn occurrences(g: Map<usize, Seq<usize>>, d: nat) -> nat {
    nodes_with_degree(g, d).len()
}

/// `d` stands at place `k`, counted from 0, where the degrees of all nodes
/// are put in ascending order.
pub open spec fn is_kth_degree(g: Map<usize, Seq<usize>>, k: nat, d: nat) -> bool {
    nodes_below(g, d).len() <= k < nodes_below(g, d + 1).len()
}

/// `d` is the degree that most nodes have, and the smallest such degree.
pub open spec fn is_mode(g: Map<usize, Seq<usize>>, d: nat) -> bool {
    &&& occurrences(g, d) > 0
    &&& forall|other: nat| #[trigger] occurrences(g, other) <= occurrences(g, d)
    &&& forall|other: nat| other < d ==> #[trigger] occurrences(g, other) < occurrences(g, d)
}

/// `d` is the largest degree of a node.
pub open spec fn is_max_degree(g: Map<usize, Seq<usize>>, d: nat) -> bool {
    &&& occurrences(g, d) > 0
    &&& forall|node: usize| g.contains_key(node) ==> #[trigger] degree(g, node) <= d
}

/// `d` is the smallest degree of a node.
pub open spec fn is_min_degree(g: Map<usize, Seq<usize>>, d: nat) -> bool {
    &&& occurrences(g, d) > 0
    &&& forall|node: usize| g.contains_key(node) ==> #[trigger] degree(g, node) >= d
}

/// `listing` holds for every node of `g`, once, the number of its edges and
/// the node, in ascending order.
pub open spec fn is_degree_listing(g: Map<usize, Seq<usize>>, listing: Seq<(usize, usize)>) -> bool {
    &&& listing.len() == g.dom().len()
    &&& is_sorted(listing)
    &&& forall|k: int|
        0 <= k < listing.len() ==> g.contains_key((#[trigger] listing[k]).1) && listing[k].0
            == degree(g, listing[k].1)
    &&& forall|a: int, b: int|
        0 <= a < b < listing.len() ==> (#[trigger] listing[a]).1 != (#[trigger] listing[b]).1
    &&& forall|node: usize|
        g.contains_key(node) ==> exists|k: int|
            0 <= k < listing.len() && (#[trigger] listing[k]).1 == node
}

/// The nodes at the places from `a` up to `b` of `listing`.
pub open spec fn nodes_of(listing: Seq<(usize, usize)>, a: int, b: int) -> Set<usize> {
    Set::new(|node: usize| exists|k: int| a <= k < b && (#[trigger] listing[k]).1 == node)
}

/// `best` is the degree below `bound` that most nodes have, `best_len` of
/// them, and the smallest such degree.
pub open spec fn is_mode_below(
    g: Map<usize, Seq<usize>>,
    bound: nat,
    best: nat,
    best_len: nat,
) -> bool {
    &&& best < bound
    &&& best_len > 0
    &&& occurrences(g, best) == best_len
    &&& forall|other: nat| other < bound ==> #[trigger] occurrences(g, other) <= best_len
    &&& forall|other: nat| other < best ==> #[trigger] occurrences(g, other) < best_len
}

/// The degrees and nodes of all nodes, put in ascending order, are a degree
/// listing.
pub proof fn lemma_sorted_degrees_list(
    g: Map<usize, Seq<usize>>,
    nodes: Seq<usize>,
    entries: Seq<(usize, usize)>,
    listing: Seq<(usize, usize)>,
)
    requires
        nodes.no_duplicates(),
        nodes.to_set() == g.dom(),
        nodes.len() == g.dom().len(),
        entries.len() == nodes.len(),
        forall|k: int|
            0 <= k < nodes.len() ==> (#[trigger] entries[k]).1 == nodes[k] && entries[k].0
                == degree(g, nodes[k]),
        listing.to_multiset() == entries.to_multiset(),
        is_sorted(listing),
    ensures
        is_degree_listing(g, listing),
{
    lemma_same_pairs(listing, entries);
    assert(entries.no_duplicates()) by {
        assert forall|a: int, b: int| 0 <= a < entries.len() && 0 <= b < entries.len() && a
            != b implies entries[a] != entries[b] by {
            assert(entries[a].1 == nodes[a]);
            assert(entries[b].1 == nodes[b]);
        }
    }
    assert forall|k: int| 0 <= k < listing.len() implies g.contains_key((#[trigger] listing[k]).1)
        && listing[k].0 == degree(g, listing[k].1) by {
        assert(listing.contains(listing[k]));
        assert(entries.contains(listing[k]));
        let m = choose|m: int| 0 <= m < entries.len() && entries[m] == listing[k];
        assert(entries[m].1 == nodes[m]);
        assert(nodes.to_set().contains(nodes[m]));
    }
    assert forall|a: int, b: int| 0 <= a < b < listing.len() implies (#[trigger] listing[a]).1 != (
    #[trigger] listing[b]).1 by {
        assert(listing[a] != listing[b]);
    }
    assert forall|node: usize| g.contains_key(node) implies exists|k: int|
        0 <= k < listing.len() && (#[trigger] listing[k]).1 == node by {
        assert(nodes.to_set().contains(node));
        let m = choose|m: int| 0 <= m < nodes.len() && nodes[m] == node;
        assert(entries[m].1 == node);
        assert(entries.contains(entries[m]));
        assert(listing.contains(entries[m]));
        let k = choose|k: int| 0 <= k < listing.len() && listing[k] == entries[m];
        assert(listing[k].1 == node);
    }
}

/// Between two places of a listing stand as many nodes as there are places.
pub proof fn lemma_nodes_of_len(listing: Seq<(usize, usize)>, a: int, b: int)
    requires
        0 <= a <= b <= listing.len(),
        forall|i: int, j: int|
            0 <= i < j < listing.len() ==> (#[trigger] listing[i]).1 != (#[trigger] listing[j]).1,
    ensures
        nodes_of(listing, a, b).finite(),
        nodes_of(listing, a, b).len() == b - a,
    decreases b - a,
{
    if a == b {
        assert(nodes_of(listing, a, b) =~= Set::<usize>::empty());
    } else {
        lemma_nodes_of_len(listing, a, b - 1);
        let last = listing[b - 1].1;
        assert(!nodes_of(listing, a, b - 1).contains(last)) by {
            if nodes_of(listing, a, b - 1).contains(last) {
                let k = choose|k: int| a <= k < b - 1 && (#[trigger] listing[k]).1 == last;
                assert(listing[k].1 != listing[b - 1].1);
            }
        }
        assert forall|node: usize| nodes_of(listing, a, b).contains(node) <==> nodes_of(
            listing,
            a,
            b - 1,
        ).insert(last).contains(node) by {
            if nodes_of(listing, a, b).contains(node) {
                let k = choose|k: int| a <= k < b && (#[trigger] listing[k]).1 == node;
                if k < b - 1 {
                    assert(nodes_of(listing, a, b - 1).contains(node));
                }
            }
            if nodes_of(listing, a, b - 1).contains(node) {
                let k = choose|k: int| a <= k < b - 1 && (#[trigger] listing[k]).1 == node;
                assert(listing[k].1 == node);
            }
            if node == last {
                assert(listing[b - 1].1 == node);
            }
        }
        assert(nodes_of(listing, a, b) =~= nodes_of(listing, a, b - 1).insert(last));
    }
}

/// In a degree listing the degrees stand in ascending order.
pub proof fn lemma_listing_ascends(g: Map<usize, Seq<usize>>, listing: Seq<(usize, usize)>, a: int, b: int)
    requires
        is_degree_listing(g, listing),
        0 <= a <= b < listing.len(),
    ensures
        listing[a].0 <= listing[b].0,
{
    if a < b {
        assert(pair_le(listing[a], listing[b]));
    }
}

/// The degree at place `k` of a degree listing is the `k`th degree.
pub proof fn lemma_kth_degree(g: Map<usize, Seq<usize>>, listing: Seq<(usize, usize)>, k: int)
    requires
        g.dom().finite(),
        is_degree_listing(g, listing),
        0 <= k < listing.len(),
    ensures
        is_kth_degree(g, k as nat, listing[k].0 as nat),
{
    let d = listing[k].0 as nat;
    let next = k + 1;
    let above = d + 1;
    lemma_nodes_of_len(listing, 0, k);
    lemma_nodes_of_len(listing, 0, next);
    assert forall|node: usize| #[trigger] nodes_below(g, d).contains(node) implies nodes_of(
        listing,
        0,
        k,
    ).contains(node) by {
        let j = choose|j: int| 0 <= j < listing.len() && (#[trigger] listing[j]).1 == node;
        if j >= k {
            lemma_listing_ascends(g, listing, k, j);
        }
    }
    assert(nodes_below(g, d).subset_of(nodes_of(listing, 0, k)));
    lemma_len_subset(nodes_below(g, d), nodes_of(listing, 0, k));
    assert forall|node: usize| #[trigger] nodes_of(listing, 0, next).contains(node) implies nodes_below(
        g,
        above,
    ).contains(node) by {
        let j = choose|j: int| 0 <= j < next && (#[trigger] listing[j]).1 == node;
        lemma_listing_ascends(g, listing, j, k);
    }
    assert(nodes_of(listing, 0, next).subset_of(nodes_below(g, above)));
    assert(nodes_below(g, above).subset_of(g.dom()));
    lemma_set_subset_finite(g.dom(), nodes_below(g, above));
    lemma_len_subset(nodes_of(listing, 0, next), nodes_below(g, above));
}

/// Where the places from `a` up to `b` of a degree listing are those with
/// the degree `d`, `b - a` nodes have that degree.
pub proof fn lemma_run_of_degree(
    g: Map<usize, Seq<usize>>,
    listing: Seq<(usize, usize)>,
    a: int,
    b: int,
    d: nat,
)
    requires
        is_degree_listing(g, listing),
        0 <= a <= b <= listing.len(),
        forall|k: int| 0 <= k < listing.len() ==> (a <= k < b <==> (#[trigger] listing[k]).0 == d),
    ensures
        occurrences(g, d) == b - a,
{
    lemma_nodes_of_len(listing, a, b);
    assert forall|node: usize| nodes_with_degree(g, d).contains(node) <==> nodes_of(
        listing,
        a,
        b,
    ).contains(node) by {
        if nodes_with_degree(g, d).contains(node) {
            let j = choose|j: int| 0 <= j < listing.len() && (#[trigger] listing[j]).1 == node;
            assert(listing[j].0 == d);
        }
        if nodes_of(listing, a, b).contains(node) {
            let j = choose|j: int| a <= j < b && (#[trigger] listing[j]).1 == node;
            assert(listing[j].0 == d);
        }
    }
    assert(nodes_with_degree(g, d) =~= nodes_of(listing, a, b));
}

/// A degree that stands at no place of a degree listing is the degree of no
/// node.
pub proof fn lemma_absent_degree(g: Map<usize, Seq<usize>>, listing: Seq<(usize, usize)>, d: nat)
    requires
        is_degree_listing(g, listing),
        forall|k: int| 0 <= k < listing.len() ==> (#[trigger] listing[k]).0 != d,
    ensures
        occurrences(g, d) == 0,
{
    lemma_run_of_degree(g, listing, 0, 0, d);
}

/// The first degree of a degree listing is the smallest and the last the
/// largest.
pub proof fn lemma_extreme_degrees(g: Map<usize, Seq<usize>>, listing: Seq<(usize, usize)>)
    requires
        g.dom().finite(),
        is_degree_listing(g, listing),
        listing.len() > 0,
    ensures
        is_min_degree(g, listing[0].0 as nat),
        is_max_degree(g, listing[listing.len() - 1].0 as nat),
{
    let n = listing.len() as int;
    let low = listing[0].0 as nat;
    let high = listing[n - 1].0 as nat;
    assert(nodes_with_degree(g, low).contains(listing[0].1));
    assert(nodes_with_degree(g, high).contains(listing[n - 1].1));
    assert(nodes_with_degree(g, low).subset_of(g.dom()));
    assert(nodes_with_degree(g, high).subset_of(g.dom()));
    lemma_set_subset_finite(g.dom(), nodes_with_degree(g, low));
    lemma_set_subset_finite(g.dom(), nodes_with_degree(g, high));
    assert(occurrences(g, low) > 0) by {
        if nodes_with_degree(g, low).len() == 0 {
            nodes_with_degree(g, low).lemma_len0_is_empty();
        }
    }
    assert(occurrences(g, high) > 0) by {
        if nodes_with_degree(g, high).len() == 0 {
            nodes_with_degree(g, high).lemma_len0_is_empty();
        }
    }
    assert forall|node: usize| g.contains_key(node) implies low <= #[trigger] degree(g, node)
        <= high by {
        let j = choose|j: int| 0 <= j < listing.len() && (#[trigger] listing[j]).1 == node;
        lemma_listing_ascends(g, listing, 0, j);
        lemma_listing_ascends(g, listing, j, n - 1);
    }
}

/// The run of places from `a` up to `b` of a degree listing holds one degree,
/// and the places around it hold others: then the degree that most nodes have
/// among those up to that run is the one before the run, or that of the run
/// where it is longer.
pub proof fn lemma_mode_after_run(
    g: Map<usize, Seq<usize>>,
    listing: Seq<(usize, usize)>,
    a: int,
    b: int,
    best: nat,
    best_len: nat,
    bound: nat,
)
    requires
        is_degree_listing(g, listing),
        0 <= a < b <= listing.len(),
        forall|k: int| a <= k < b ==> (#[trigger] listing[k]).0 == listing[a].0,
        a > 0 ==> listing[a - 1].0 < listing[a].0 && is_mode_below(
            g,
            listing[a].0 as nat,
            best,
            best_len,
        ),
        a == 0 ==> best_len == 0,
        b < listing.len() ==> listing[a].0 < listing[b].0 && bound == listing[b].0,
        b == listing.len() ==> bound > listing[a].0,
    ensures
        occurrences(g, listing[a].0 as nat) == b - a,
        b - a > best_len ==> is_mode_below(g, bound, listing[a].0 as nat, (b - a) as nat),
        b - a <= best_len ==> is_mode_below(g, bound, best, best_len),
{
    let d = listing[a].0 as nat;
    assert forall|k: int| 0 <= k < listing.len() implies (a <= k < b <==> (#[trigger] listing[k]).0
        == d) by {
        if k < a {
            lemma_listing_ascends(g, listing, k, a - 1);
        }
        if k >= b {
            lemma_listing_ascends(g, listing, b, k);
        }
    }
    lemma_run_of_degree(g, listing, a, b, d);
    assert forall|other: nat| other < bound && other != d && (a > 0 ==> other >= d) implies #[trigger] occurrences(
        g,
        other,
    ) == 0 by {
        assert forall|k: int| 0 <= k < listing.len() implies (#[trigger] listing[k]).0 != other by {
            if k < a {
                lemma_listing_ascends(g, listing, k, a - 1);
            } else if k >= b {
                lemma_listing_ascends(g, listing, b, k);
            }
        }
        lemma_absent_degree(g, listing, other);
    }
    if a == 0 {
        assert forall|other: nat| other < d implies #[trigger] occurrences(g, other) == 0 by {
            assert forall|k: int| 0 <= k < listing.len() implies (#[trigger] listing[k]).0
                != other by {
                lemma_listing_ascends(g, listing, 0, k);
            }
            lemma_absent_degree(g, listing, other);
        }
    }
}

/// The degree that most nodes have among all degrees is the mode.
pub proof fn lemma_mode_of_all(
    g: Map<usize, Seq<usize>>,
    listing: Seq<(usize, usize)>,
    best: nat,
    best_len: nat,
)
    requires
        is_degree_listing(g, listing),
        listing.len() > 0,
        is_mode_below(g, listing[listing.len() - 1].0 as nat + 1, best, best_len),
    ensures
        is_mode(g, best),
{
    let n = listing.len() as int;
    let high = listing[n - 1].0 as nat;
    assert forall|other: nat| #[trigger] occurrences(g, other) <= occurrences(g, best) by {
        if other > high {
            assert forall|k: int| 0 <= k < listing.len() implies (#[trigger] listing[k]).0
                != other by {
                lemma_listing_ascends(g, listing, k, n - 1);
            }
            lemma_absent_degree(g, listing, other);
        }
    }
}

} // verus!
