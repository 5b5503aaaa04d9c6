//! The vocabulary in which the contracts of this crate speak about comparators.
//!
//! An executable comparator is a closure, and all that a contract can know of a
//! closure is which answers it may give. The predicates below tie such a closure
//! to a mathematical relation `rel` and say when that relation orders a sequence.

use std::cmp::Ordering;
use vstd::prelude::*;
use vstd::std_specs::cmp::OrdSpec;

verus! {

/// The element of `s` at position `index`.
#[verifier::inline]
pub open spec fn at<T>(s: Seq<T>, index: usize) -> T {
    s[index as int]
}

/// The position `index` as a mathematical integer.
#[verifier::inline]
pub open spec fn pos(index: usize) -> int {
    index as int
}

/// The answer for `(b, a)` that matches the answer `o` for `(a, b)`.
pub open spec fn reversed(o: Ordering) -> Ordering {
    match o {
        Ordering::Less => Ordering::Greater,
        Ordering::Equal => Ordering::Equal,
        Ordering::Greater => Ordering::Less,
    }
}

/// `rel` does not place `a` after `b`.
pub open spec fn precedes<T>(rel: spec_fn(T, T) -> Ordering, a: T, b: T) -> bool {
    rel(a, b) != Ordering::Greater
}

/// On the values of `domain`, `rel` is a total preorder told three ways: turning
/// the arguments around reverses the answer, and `precedes` is transitive.
pub open spec fn total_preorder<T>(rel: spec_fn(T, T) -> Ordering, domain: Set<T>) -> bool {
    &&& forall|a: T, b: T|
        domain.contains(a) && domain.contains(b) ==> #[trigger] rel(b, a) == reversed(rel(a, b))
    &&& forall|a: T, b: T, c: T|
        domain.contains(a) && domain.contains(b) && domain.contains(c) && #[trigger] precedes(
            rel,
            a,
            b,
        ) && #[trigger] precedes(rel, b, c) ==> precedes(rel, a, c)
}

/// On the values of `domain`, `rel` calls two values equal only if they are the
/// same value.
pub open spec fn antisymmetric<T>(rel: spec_fn(T, T) -> Ordering, domain: Set<T>) -> bool {
    forall|a: T, b: T|
        domain.contains(a) && domain.contains(b) && #[trigger] rel(a, b) == Ordering::Equal ==> a
            == b
}

/// Whatever `compare` answers for two values of `domain` is what `rel` says.
pub open spec fn computes<T, F>(compare: F, rel: spec_fn(T, T) -> Ordering, domain: Set<T>) -> bool
    where F: Fn(&T, &T) -> Ordering
{
    forall|a: T, b: T, o: Ordering|
        domain.contains(a) && domain.contains(b) && #[trigger] call_ensures(compare, (&a, &b), o)
            ==> o == rel(a, b)
}

/// `compare` may be called on any two values of `domain`.
pub open spec fn comparable<T, F>(compare: F, domain: Set<T>) -> bool
    where F: Fn(&T, &T) -> Ordering
{
    forall|a: &T, b: &T|
        domain.contains(*a) && domain.contains(*b) ==> #[trigger] call_requires(compare, (a, b))
}

/// `compare` may be called on `a` and `b`.
pub open spec fn may_ask<T, F>(compare: &F, a: &T, b: &T) -> bool
    where F: Fn(&T, &T) -> Ordering
{
    call_requires(*compare, (a, b))
}

/// `o` is an answer that `compare` can give for `a` and `b`.
pub open spec fn may_answer<T, F>(compare: &F, a: &T, b: &T, o: Ordering) -> bool
    where F: Fn(&T, &T) -> Ordering
{
    call_ensures(*compare, (a, b), o)
}

/// `compare` computes `rel`, and `rel` is a total preorder, on the values of `domain`.
pub open spec fn orders<T, F>(compare: F, rel: spec_fn(T, T) -> Ordering, domain: Set<T>) -> bool
    where F: Fn(&T, &T) -> Ordering
{
    computes(compare, rel, domain) && total_preorder(rel, domain)
}

/// No element of `s` between `lo` and `hi` (exclusive) is placed by `rel` after a
/// later one of them.
pub open spec fn sorted_between<T>(
    s: Seq<T>,
    rel: spec_fn(T, T) -> Ordering,
    lo: int,
    hi: int,
) -> bool {
    forall|i: int, j: int| lo <= i < j < hi ==> precedes(rel, #[trigger] s[i], #[trigger] s[j])
}

/// No element of `s` is placed by `rel` after a later one.
pub open spec fn sorted_by<T>(s: Seq<T>, rel: spec_fn(T, T) -> Ordering) -> bool {
    forall|i: int, j: int| 0 <= i < j < s.len() ==> precedes(rel, #[trigger] s[i], #[trigger] s[j])
}

/// `rel` places none of the elements of `s` from `lo` up to but not including
/// `hi` after `v`.
pub open spec fn all_precede<T>(
    s: Seq<T>,
    rel: spec_fn(T, T) -> Ordering,
    lo: int,
    hi: int,
    v: T,
) -> bool {
    forall|k: int| 0 <= k < s.len() && lo <= k < hi ==> precedes(rel, #[trigger] s[k], v)
}

/// `rel` places none of the elements of `s` from `lo` up to but not including
/// `hi` before `v`.
pub open spec fn all_follow<T>(
    s: Seq<T>,
    rel: spec_fn(T, T) -> Ordering,
    lo: int,
    hi: int,
    v: T,
) -> bool {
    forall|k: int| 0 <= k < s.len() && lo <= k < hi ==> precedes(rel, v, #[trigger] s[k])
}

/// `after` is in order from `lo` up to but not including `hi`, as every total
/// preorder has it that `compare` computes on the elements of `before`.
pub open spec fn sorted_for_between<T, F>(
    compare: F,
    before: Seq<T>,
    after: Seq<T>,
    lo: int,
    hi: int,
) -> bool
    where F: Fn(&T, &T) -> Ordering
{
    forall|rel: spec_fn(T, T) -> Ordering| #[trigger]
        orders(compare, rel, before.to_set()) ==> sorted_between(after, rel, lo, hi)
}

/// `after` is in order, as every total preorder has it that `compare` computes
/// on the elements of `before`.
pub open spec fn sorted_for<T, F>(compare: F, before: Seq<T>, after: Seq<T>) -> bool
    where F: Fn(&T, &T) -> Ordering
{
    forall|rel: spec_fn(T, T) -> Ordering| #[trigger]
        orders(compare, rel, before.to_set()) ==> sorted_by(after, rel)
}

/// The order that `Ord` gives the values of `T`.
pub open spec fn natural_order<T: Ord>() -> spec_fn(T, T) -> Ordering {
    |a: T, b: T| a.cmp_spec(&b)
}

/// The order of the values of `T` by what `key` makes of them.
pub open spec fn order_by_key<T, K: Ord>(key: spec_fn(T) -> K) -> spec_fn(T, T) -> Ordering {
    |a: T, b: T| key(a).cmp_spec(&key(b))
}

/// `extract` may be called on `a`.
pub open spec fn may_extract<T, K, F>(extract: &F, a: &T) -> bool
    where F: Fn(&T) -> K
{
    call_requires(*extract, (a,))
}

/// `k` is a key that `extract` can give for `a`.
pub open spec fn may_give<T, K, F>(extract: &F, a: &T, k: K) -> bool
    where F: Fn(&T) -> K
{
    call_ensures(*extract, (a,), k)
}

/// `extract` may be called on every value of `domain`.
pub open spec fn extractable<T, K, F>(extract: F, domain: Set<T>) -> bool
    where F: Fn(&T) -> K
{
    forall|a: &T| domain.contains(*a) ==> #[trigger] call_requires(extract, (a,))
}

/// Whatever `extract` gives for a value of `domain` is what `key` says.
pub open spec fn extracts<T, K, F>(extract: F, key: spec_fn(T) -> K, domain: Set<T>) -> bool
    where F: Fn(&T) -> K
{
    forall|a: T, k: K|
        domain.contains(a) && #[trigger] call_ensures(extract, (&a,), k) ==> k == key(a)
}

/// `after` is in the order of the keys, for every `key` that `extract` computes
/// on the elements of `before` and whose order by `Ord` is a total preorder
/// on them.
pub open spec fn sorted_for_key<T, K: Ord, F>(extract: F, before: Seq<T>, after: Seq<T>) -> bool
    where F: Fn(&T) -> K
{
    forall|key: spec_fn(T) -> K| #[trigger]
        extracts(extract, key, before.to_set()) && K::obeys_cmp_spec() && total_preorder(
            order_by_key(key),
            before.to_set(),
        ) ==> sorted_by(after, order_by_key(key))
}

} // verus!
