//! Pairs of numbers in ascending order.
//!
//! Pairs are ordered by their first number, and pairs with the same first
//! number by their second.

use vstd::prelude::*;
use vstd::seq_lib::{
    lemma_multiset_commutative, to_multiset_build, to_multiset_contains, to_multiset_len,
};

verus! {

/// `a` comes before `b` or is `b`.
pub open spec fn pair_le(a: (usize, usize), b: (usize, usize)) -> bool {
    a.0 < b.0 || (a.0 == b.0 && a.1 <= b.1)
}

/// `a` comes before `b`.
pub open spec fn pair_lt(a: (usize, usize), b: (usize, usize)) -> bool {
    a.0 < b.0 || (a.0 == b.0 && a.1 < b.1)
}

/// The pairs of `s` are in ascending order.
pub open spec fn is_sorted(s: Seq<(usize, usize)>) -> bool {
    forall|i: int, j: int| 0 <= i < j < s.len() ==> pair_le(#[trigger] s[i], #[trigger] s[j])
}

/// The pairs of `s` are in ascending order, none of them twice.
pub open spec fn is_strictly_sorted(s: Seq<(usize, usize)>) -> bool {
    forall|i: int, j: int| 0 <= i < j < s.len() ==> pair_lt(#[trigger] s[i], #[trigger] s[j])
}

/// Two sequences with the same pairs, each as often in the one as in the
/// other, are as long as each other and hold the same pairs.
pub proof fn lemma_same_pairs(a: Seq<(usize, usize)>, b: Seq<(usize, usize)>)
    requires
        a.to_multiset() == b.to_multiset(),
    ensures
        a.len() == b.len(),
        a.to_set() == b.to_set(),
        forall|p: (usize, usize)| a.contains(p) <==> b.contains(p),
        a.no_duplicates() <==> b.no_duplicates(),
{
    to_multiset_len(a);
    to_multiset_len(b);
    if a.no_duplicates() {
        a.lemma_multiset_has_no_duplicates();
        b.lemma_multiset_has_no_duplicates_conv();
    }
    if b.no_duplicates() {
        b.lemma_multiset_has_no_duplicates();
        a.lemma_multiset_has_no_duplicates_conv();
    }
    assert forall|p: (usize, usize)| a.contains(p) <==> b.contains(p) by {
        to_multiset_contains(a, p);
        to_multiset_contains(b, p);
    }
    assert(a.to_set() =~= b.to_set());
}

/// A sequence in strictly ascending order holds no pair twice: it is as long
/// as the set of its pairs is large.
pub proof fn lemma_strictly_sorted_len(s: Seq<(usize, usize)>)
    requires
        is_strictly_sorted(s),
    ensures
        s.no_duplicates(),
        s.len() == s.to_set().len(),
{
    assert forall|i: int, j: int| 0 <= i < s.len() && 0 <= j < s.len() && i != j implies s[i]
        != s[j] by {
        if i < j {
            assert(pair_lt(s[i], s[j]));
        } else {
            assert(pair_lt(s[j], s[i]));
        }
    }
    s.unique_seq_to_set();
}

/// Two sequences in strictly ascending order that hold the same pairs are
/// the same sequence.
pub proof fn lemma_strictly_sorted_unique(a: Seq<(usize, usize)>, b: Seq<(usize, usize)>)
    requires
        is_strictly_sorted(a),
        is_strictly_sorted(b),
        a.to_set() == b.to_set(),
    ensures
        a == b,
    decreases a.len(),
{
    lemma_strictly_sorted_len(a);
    lemma_strictly_sorted_len(b);
    if a.len() > 0 {
        let x = a.last();
        let y = b.last();
        assert(a.to_set().contains(x));
        assert(b.to_set().contains(y));
        assert(b.contains(x));
        assert(a.contains(y));
        let i = choose|i: int| 0 <= i < b.len() && b[i] == x;
        let j = choose|j: int| 0 <= j < a.len() && a[j] == y;
        if i < b.len() - 1 {
            assert(pair_lt(b[i], b[b.len() - 1]));
        }
        if j < a.len() - 1 {
            assert(pair_lt(a[j], a[a.len() - 1]));
        }
        assert(x == y);
        let a0 = a.drop_last();
        let b0 = b.drop_last();
        assert forall|p: (usize, usize)| a0.to_set().contains(p) <==> b0.to_set().contains(p) by {
            if a0.contains(p) {
                let k = choose|k: int| 0 <= k < a0.len() && a0[k] == p;
                assert(a[k] == p);
                assert(pair_lt(a[k], a[a.len() - 1]));
                assert(a.to_set().contains(p));
                assert(b.contains(p));
                let m = choose|m: int| 0 <= m < b.len() && b[m] == p;
                assert(b0[m] == p);
            }
            if b0.contains(p) {
                let k = choose|k: int| 0 <= k < b0.len() && b0[k] == p;
                assert(b[k] == p);
                assert(pair_lt(b[k], b[b.len() - 1]));
                assert(b.to_set().contains(p));
                assert(a.contains(p));
                let m = choose|m: int| 0 <= m < a.len() && a[m] == p;
                assert(a0[m] == p);
            }
        }
        assert(a0.to_set() =~= b0.to_set());
        lemma_strictly_sorted_unique(a0, b0);
        assert(a =~= a0.push(x));
        assert(b =~= b0.push(y));
    } else {
        assert(a =~= b);
    }
}

/// Whether `a` comes before `b` or is `b`.
fn pair_is_le(a: (usize, usize), b: (usize, usize)) -> (le: bool)
    ensures
        le == pair_le(a, b),
{
    a.0 < b.0 || (a.0 == b.0 && a.1 <= b.1)
}

/// The pairs of two ascending sequences in one ascending sequence.
fn merge(left: &Vec<(usize, usize)>, right: &Vec<(usize, usize)>) -> (out: Vec<(usize, usize)>)
    requires
        is_sorted(left@),
        is_sorted(right@),
    ensures
        is_sorted(out@),
        out@.to_multiset() == left@.to_multiset().add(right@.to_multiset()),
{
    let mut out: Vec<(usize, usize)> = Vec::new();
    let mut i: usize = 0;
    let mut j: usize = 0;
    proof {
        let none = Seq::<(usize, usize)>::empty();
        assert(left@.take(0) =~= none);
        assert(right@.take(0) =~= none);
        assert(out@ =~= none);
        assert(none + none =~= none);
        lemma_multiset_commutative(none, none);
        assert(out@.to_multiset() =~= left@.take(0).to_multiset().add(right@.take(0).to_multiset()));
    }
    while i < left.len() || j < right.len()
        invariant
            i <= left@.len(),
            j <= right@.len(),
            is_sorted(left@),
            is_sorted(right@),
            is_sorted(out@),
            out@.to_multiset() == left@.take(i as int).to_multiset().add(
                right@.take(j as int).to_multiset(),
            ),
            forall|k: int| 0 <= k < out@.len() && i < left@.len() ==> pair_le(#[trigger] out@[k], left@[i as int]),
            forall|k: int|
                0 <= k < out@.len() && j < right@.len() ==> pair_le(#[trigger] out@[k], right@[j as int]),
        decreases left@.len() - i + right@.len() - j,
    {
        let from_left = if i == left.len() {
            false
        } else if j == right.len() {
            true
        } else {
            pair_is_le(left[i], right[j])
        };
        let ghost before = out@;
        if from_left {
            let pair = left[i];
            out.push(pair);
            proof {
                assert(left@.take(i + 1) =~= left@.take(i as int).push(pair));
                to_multiset_build(before, pair);
                to_multiset_build(left@.take(i as int), pair);
                assert(out@.to_multiset() =~= left@.take(i + 1).to_multiset().add(
                    right@.take(j as int).to_multiset(),
                ));
                if i + 1 < left@.len() {
                    assert(pair_le(left@[i as int], left@[i + 1]));
                }
            }
            i += 1;
        } else {
            let pair = right[j];
            out.push(pair);
            proof {
                assert(right@.take(j + 1) =~= right@.take(j as int).push(pair));
                to_multiset_build(before, pair);
                to_multiset_build(right@.take(j as int), pair);
                assert(out@.to_multiset() =~= left@.take(i as int).to_multiset().add(
                    right@.take(j + 1).to_multiset(),
                ));
                if j + 1 < right@.len() {
                    assert(pair_le(right@[j as int], right@[j + 1]));
                }
            }
            j += 1;
        }
    }
    proof {
        assert(left@.take(i as int) =~= left@);
        assert(right@.take(j as int) =~= right@);
    }
    out
}

/// The pairs of `pairs` in ascending order, each as often as in `pairs`.
pub(crate) fn sort_pairs(pairs: Vec<(usize, usize)>) -> (out: Vec<(usize, usize)>)
    ensures
        is_sorted(out@),
        out@.to_multiset() == pairs@.to_multiset(),
    decreases pairs@.len(),
{
    let n = pairs.len();
    if n <= 1 {
        return pairs;
    }
    let mid = n / 2;
    let mut left: Vec<(usize, usize)> = Vec::new();
    let mut right: Vec<(usize, usize)> = Vec::new();
    let mut i: usize = 0;
    while i < mid
        invariant
            i <= mid <= pairs@.len(),
            left@ == pairs@.take(i as int),
        decreases mid - i,
    {
        left.push(pairs[i]);
        proof {
            assert(left@ =~= pairs@.take(i + 1));
        }
        i += 1;
    }
    while i < n
        invariant
            mid <= i <= n,
            n == pairs@.len(),
            right@ == pairs@.subrange(mid as int, i as int),
        decreases n - i,
    {
        right.push(pairs[i]);
        proof {
            assert(right@ =~= pairs@.subrange(mid as int, i + 1));
        }
        i += 1;
    }
    proof {
        assert(pairs@ =~= left@ + right@);
        lemma_multiset_commutative(left@, right@);
    }
    let left = sort_pairs(left);
    let right = sort_pairs(right);
    merge(&left, &right)
}

/// The pairs of `pairs`, each of them once, in ascending order.
pub(crate) fn without_repeats(pairs: &Vec<(usize, usize)>) -> (out: Vec<(usize, usize)>)
    requires
        is_sorted(pairs@),
    ensures
        is_strictly_sorted(out@),
        out@.to_set() == pairs@.to_set(),
{
    let mut out: Vec<(usize, usize)> = Vec::new();
    let mut i: usize = 0;
    assert(out@.to_set() =~= pairs@.take(0).to_set());
    while i < pairs.len()
        invariant
            i <= pairs@.len(),
            is_sorted(pairs@),
            is_strictly_sorted(out@),
            out@.to_set() == pairs@.take(i as int).to_set(),
            i == 0 ==> out@.len() == 0,
            i > 0 ==> out@.len() > 0 && out@.last() == pairs@[i - 1],
        decreases pairs@.len() - i,
    {
        let pair = pairs[i];
        let ghost before = out@;
        let fresh = if out.len() == 0 {
            true
        } else {
            let last = out[out.len() - 1];
            last.0 != pair.0 || last.1 != pair.1
        };
        if fresh {
            out.push(pair);
        }
        proof {
            let seen = pairs@.take(i as int);
            let seen2 = pairs@.take(i + 1);
            assert(seen2 =~= seen.push(pair));
            if fresh {
                if i > 0 {
                    assert(pair_le(pairs@[i - 1], pairs@[i as int]));
                    assert(pair_lt(before.last(), pair));
                    assert forall|a: int, b: int| 0 <= a < b < out@.len() implies pair_lt(
                        #[trigger] out@[a],
                        #[trigger] out@[b],
                    ) by {
                        if b == before.len() && a < before.len() - 1 {
                            assert(pair_lt(before[a], before[before.len() - 1]));
                        }
                    }
                }
                assert forall|p: (usize, usize)| out@.to_set().contains(p) <==> seen2.to_set().contains(
                    p,
                ) by {
                    if out@.contains(p) {
                        let k = choose|k: int| 0 <= k < out@.len() && out@[k] == p;
                        if k < before.len() {
                            assert(before.contains(p));
                            assert(seen.to_set().contains(p));
                            let m = choose|m: int| 0 <= m < seen.len() && seen[m] == p;
                            assert(seen2[m] == p);
                        } else {
                            assert(seen2[i as int] == p);
                        }
                    }
                    if seen2.contains(p) {
                        let m = choose|m: int| 0 <= m < seen2.len() && seen2[m] == p;
                        if m < i {
                            assert(seen[m] == p);
                            assert(seen.to_set().contains(p));
                            assert(before.contains(p));
                            let k = choose|k: int| 0 <= k < before.len() && before[k] == p;
                            assert(out@[k] == p);
                        } else {
                            assert(out@[before.len() as int] == p);
                        }
                    }
                }
            } else {
                assert(pair == pairs@[i - 1]);
                assert forall|p: (usize, usize)| seen.to_set().contains(p) <==> seen2.to_set().contains(
                    p,
                ) by {
                    if seen.contains(p) {
                        let m = choose|m: int| 0 <= m < seen.len() && seen[m] == p;
                        assert(seen2[m] == p);
                    }
                    if seen2.contains(p) {
                        let m = choose|m: int| 0 <= m < seen2.len() && seen2[m] == p;
                        if m < i {
                            assert(seen[m] == p);
                        } else {
                            assert(seen[i - 1] == p);
                        }
                    }
                }
            }
            assert(out@.to_set() =~= seen2.to_set());
        }
        i += 1;
    }
    assert(pairs@.take(i as int) =~= pairs@);
    out
}

} // verus!
