//! What it means to rearrange a stretch of a sequence, and why an exchange of
//! two elements does so.

use crate::array::exchanged;
use vstd::prelude::*;

verus! {

/// `x` is one of the elements of `s` from `lo` up to but not including `hi`.
pub open spec fn occurs<T>(s: Seq<T>, lo: int, hi: int, x: T) -> bool {
    exists|m: int| 0 <= m < s.len() && lo <= m < hi && #[trigger] s[m] == x
}

/// `t` is `s` with the elements from `lo` up to but not including `hi` put in
/// another order: the two hold the same elements as often, agree outside the
/// stretch, and each element in the stretch of `t` comes from the stretch of `s`.
#[verifier::opaque]
pub open spec fn rearranged<T>(s: Seq<T>, t: Seq<T>, lo: int, hi: int) -> bool {
    &&& t.len() == s.len()
    &&& t.to_multiset() == s.to_multiset()
    &&& forall|k: int| 0 <= k < s.len() && !(lo <= k < hi) ==> #[trigger] t[k] == s[k]
    &&& forall|k: int| 0 <= k < s.len() && lo <= k < hi ==> occurs(s, lo, hi, #[trigger] t[k])
}

/// Every element of `s` is a value of `domain`.
pub open spec fn within<T>(s: Seq<T>, domain: Set<T>) -> bool {
    forall|k: int| 0 <= k < s.len() ==> domain.contains(#[trigger] s[k])
}

/// A sequence is a rearrangement of itself.
pub proof fn lemma_rearranged_same<T>(s: Seq<T>, lo: int, hi: int)
    ensures
        rearranged(s, s, lo, hi),
{
    reveal(rearranged);
}

/// To exchange two elements of a stretch is to rearrange the stretch.
pub proof fn lemma_rearranged_exchange<T>(s: Seq<T>, i: int, j: int, lo: int, hi: int)
    requires
        0 <= lo <= i < hi <= s.len(),
        lo <= j < hi,
    ensures
        rearranged(s, exchanged(s, i, j), lo, hi),
{
    reveal(rearranged);
    broadcast use vstd::seq_lib::group_to_multiset_ensures;

    let t = exchanged(s, i, j);
    assert(t.to_multiset() =~= s.to_multiset());
    assert forall|k: int| 0 <= k < s.len() && lo <= k < hi implies occurs(
        s,
        lo,
        hi,
        #[trigger] t[k],
    ) by {
        if k == j {
            assert(s[i] == t[k]);
        } else if k == i {
            assert(s[j] == t[k]);
        } else {
            assert(s[k] == t[k]);
        }
    }
}

/// A rearrangement of a rearrangement is a rearrangement.
pub proof fn lemma_rearranged_twice<T>(s: Seq<T>, t: Seq<T>, u: Seq<T>, lo: int, hi: int)
    requires
        rearranged(s, t, lo, hi),
        rearranged(t, u, lo, hi),
    ensures
        rearranged(s, u, lo, hi),
{
    reveal(rearranged);
    assert forall|k: int| 0 <= k < s.len() && lo <= k < hi implies occurs(
        s,
        lo,
        hi,
        #[trigger] u[k],
    ) by {
        assert(occurs(t, lo, hi, u[k]));
        let m = choose|m: int| 0 <= m < t.len() && lo <= m < hi && #[trigger] t[m] == u[k];
        assert(occurs(s, lo, hi, t[m]));
    }
}

/// What rearranges a stretch rearranges every stretch around it.
pub proof fn lemma_rearranged_wider<T>(s: Seq<T>, t: Seq<T>, lo: int, hi: int, lo2: int, hi2: int)
    requires
        rearranged(s, t, lo, hi),
        lo2 <= lo,
        hi <= hi2,
    ensures
        rearranged(s, t, lo2, hi2),
{
    reveal(rearranged);
    assert forall|k: int| 0 <= k < s.len() && lo2 <= k < hi2 implies occurs(
        s,
        lo2,
        hi2,
        #[trigger] t[k],
    ) by {
        if lo <= k < hi {
            assert(occurs(s, lo, hi, t[k]));
            let m = choose|m: int| 0 <= m < s.len() && lo <= m < hi && #[trigger] s[m] == t[k];
            assert(lo2 <= m < hi2 && s[m] == t[k]);
        } else {
            assert(s[k] == t[k]);
        }
    }
}

/// A rearrangement of a sequence within `domain` is within `domain`.
pub proof fn lemma_rearranged_within<T>(s: Seq<T>, t: Seq<T>, lo: int, hi: int, domain: Set<T>)
    requires
        rearranged(s, t, lo, hi),
        within(s, domain),
    ensures
        within(t, domain),
{
    reveal(rearranged);
    broadcast use vstd::seq_lib::group_to_multiset_ensures;

    assert forall|k: int| 0 <= k < t.len() implies domain.contains(#[trigger] t[k]) by {
        assert(t.contains(t[k]));
        assert(t.to_multiset().count(t[k]) > 0);
        assert(s.contains(t[k]));
        let m = choose|m: int| 0 <= m < s.len() && s[m] == t[k];
        assert(domain.contains(s[m]));
    }
}

/// What a rearrangement keeps: the length, the elements counted, and every
/// element outside the stretch.
pub proof fn lemma_rearranged_keeps<T>(s: Seq<T>, t: Seq<T>, lo: int, hi: int)
    requires
        rearranged(s, t, lo, hi),
    ensures
        t.len() == s.len(),
        t.to_multiset() == s.to_multiset(),
        forall|k: int| 0 <= k < s.len() && !(lo <= k < hi) ==> #[trigger] t[k] == s[k],
{
    reveal(rearranged);
}

/// Each element in a rearranged stretch comes from the stretch.
pub proof fn lemma_rearranged_draws<T>(s: Seq<T>, t: Seq<T>, lo: int, hi: int)
    requires
        rearranged(s, t, lo, hi),
    ensures
        forall|k: int| 0 <= k < s.len() && lo <= k < hi ==> occurs(s, lo, hi, #[trigger] t[k]),
{
    reveal(rearranged);
}

} // verus!
