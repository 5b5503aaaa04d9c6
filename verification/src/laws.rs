//! What follows from the contracts of the sorting methods, stated over the
//! sequences of elements before and after a call.

use crate::order::{antisymmetric, orders, precedes, reversed, sorted_by, sorted_for, total_preorder};
use crate::rearrange::within;
use std::cmp::Ordering;
use vstd::prelude::*;

verus! {

/// Two sequences that hold the same elements as often and are both in the order
/// of `rel` are the same sequence, where `rel` is a total preorder on the
/// elements that calls only one and the same value equal.
pub proof fn lemma_sorted_unique<T>(
    a: Seq<T>,
    b: Seq<T>,
    rel: spec_fn(T, T) -> Ordering,
    domain: Set<T>,
)
    requires
        total_preorder(rel, domain),
        antisymmetric(rel, domain),
        within(a, domain),
        a.to_multiset() == b.to_multiset(),
        sorted_by(a, rel),
        sorted_by(b, rel),
    ensures
        a == b,
    decreases a.len(),
{
    broadcast use vstd::seq_lib::group_to_multiset_ensures;

    assert(a.to_multiset().len() == a.len());
    assert(b.to_multiset().len() == b.len());
    if a.len() == 0 {
        assert(a =~= b);
    } else {
        assert(a.contains(a[0]));
        assert(b.contains(b[0]));
        assert(b.to_multiset().count(a[0]) > 0);
        assert(a.to_multiset().count(b[0]) > 0);
        let i = choose|i: int| 0 <= i < a.len() && a[i] == b[0];
        let j = choose|j: int| 0 <= j < b.len() && b[j] == a[0];
        assert(domain.contains(a[0]) && domain.contains(a[i]));
        assert(rel(b[0], a[0]) == reversed(rel(a[0], b[0])));
        if i > 0 {
            assert(precedes(rel, a[0], a[i]));
        }
        if j > 0 {
            assert(precedes(rel, b[0], b[j]));
        }
        assert(rel(a[0], b[0]) == Ordering::Equal);
        assert(a[0] == b[0]);
        let a1 = a.remove(0);
        let b1 = b.remove(0);
        vstd::seq_lib::to_multiset_remove(a, 0);
        vstd::seq_lib::to_multiset_remove(b, 0);
        assert forall|k: int| 0 <= k < a1.len() implies domain.contains(#[trigger] a1[k]) by {
            assert(a1[k] == a[k + 1]);
        }
        assert forall|m: int, n: int| 0 <= m < n < a1.len() implies precedes(
            rel,
            #[trigger] a1[m],
            #[trigger] a1[n],
        ) by {
            assert(a1[m] == a[m + 1] && a1[n] == a[n + 1]);
        }
        assert forall|m: int, n: int| 0 <= m < n < b1.len() implies precedes(
            rel,
            #[trigger] b1[m],
            #[trigger] b1[n],
        ) by {
            assert(b1[m] == b[m + 1] && b1[n] == b[n + 1]);
        }
        lemma_sorted_unique(a1, b1, rel, domain);
        assert(a =~= seq![a[0]] + a1);
        assert(b =~= seq![b[0]] + b1);
    }
}

/// To sort what is in order already changes nothing: where `before` is in the
/// order of `rel`, a total preorder that `compare` computes on its elements and
/// that calls only one and the same value equal, every `after` that a sort by
/// `compare` may leave is `before` itself.
pub proof fn lemma_sort_idempotent<T, F>(
    compare: F,
    rel: spec_fn(T, T) -> Ordering,
    before: Seq<T>,
    after: Seq<T>,
)
    where F: Fn(&T, &T) -> Ordering
    requires
        orders(compare, rel, before.to_set()),
        antisymmetric(rel, before.to_set()),
        sorted_by(before, rel),
        after.to_multiset() == before.to_multiset(),
        sorted_for(compare, before, after),
    ensures
        after == before,
{
    assert forall|k: int| 0 <= k < before.len() implies before.to_set().contains(
        #[trigger] before[k],
    ) by {
        assert(before.contains(before[k]));
    }
    lemma_sorted_unique(before, after, rel, before.to_set());
}

/// Two sorts of one input by one comparator leave the same sequence, where the
/// comparator computes a total preorder on the elements that calls only one
/// and the same value equal.
pub proof fn lemma_sort_deterministic<T, F>(
    compare: F,
    rel: spec_fn(T, T) -> Ordering,
    input: Seq<T>,
    first: Seq<T>,
    second: Seq<T>,
)
    where F: Fn(&T, &T) -> Ordering
    requires
        orders(compare, rel, input.to_set()),
        antisymmetric(rel, input.to_set()),
        first.to_multiset() == input.to_multiset(),
        sorted_for(compare, input, first),
        second.to_multiset() == input.to_multiset(),
        sorted_for(compare, input, second),
    ensures
        first == second,
{
    broadcast use vstd::seq_lib::group_to_multiset_ensures;

    assert forall|k: int| 0 <= k < first.len() implies input.to_set().contains(
        #[trigger] first[k],
    ) by {
        assert(first.contains(first[k]));
        assert(input.to_multiset().count(first[k]) > 0);
        assert(input.contains(first[k]));
    }
    lemma_sorted_unique(first, second, rel, input.to_set());
}

/// A sequence whose elements `rel` all calls equal to one another is in the
/// order of `rel` however it is arranged.
pub proof fn lemma_all_equal_sorted<T>(s: Seq<T>, rel: spec_fn(T, T) -> Ordering)
    requires
        forall|i: int, j: int|
            0 <= i < s.len() && 0 <= j < s.len() ==> rel(#[trigger] s[i], #[trigger] s[j])
                == Ordering::Equal,
    ensures
        sorted_by(s, rel),
{
}

} // verus!
