//! The vocabulary in which the searching methods of [`crate::Array`] state what
//! they return.

use crate::order::at;
use std::cmp::Ordering;
use vstd::prelude::*;
use vstd::std_specs::cmp::{OrdSpec, PartialEqSpec, PartialOrdSpec};

verus! {

/// Some element of `s` equals `target`, as `eq_spec` has it.
pub open spec fn holds<T: PartialEq>(s: Seq<T>, target: T) -> bool {
    exists|i: int| 0 <= i < s.len() && #[trigger] s[i].eq_spec(&target)
}

/// From position `offset` on, `s` holds the elements of `part` one by one, as
/// `eq_spec` has it.
pub open spec fn matches_at<T: PartialEq>(s: Seq<T>, part: Seq<T>, offset: int) -> bool {
    &&& 0 <= offset
    &&& offset + part.len() <= s.len()
    &&& forall|i: int| 0 <= i < part.len() ==> (#[trigger] s[offset + i]).eq_spec(&part[i])
}

/// `probe` may be called on every element of `s`.
pub open spec fn probeable<T, F>(probe: F, s: Seq<T>) -> bool
    where F: FnMut(&T) -> Ordering
{
    forall|a: &T| s.contains(*a) ==> #[trigger] call_requires(probe, (a,))
}

/// Whatever `probe` answers for an element of `s` is what `key` says, and `key`
/// says `Less` for some elements at the start of `s`, `Equal` for some after
/// them and `Greater` for the rest.
pub open spec fn guides<T, F>(probe: F, key: spec_fn(T) -> Ordering, s: Seq<T>) -> bool
    where F: FnMut(&T) -> Ordering
{
    &&& forall|a: T, o: Ordering|
        s.contains(a) && #[trigger] call_ensures(probe, (&a,), o) ==> o == key(a)
    &&& ascending(s, key)
}

/// `key` says `Less` for some elements at the start of `s`, `Equal` for some
/// after them and `Greater` for the rest.
pub open spec fn ascending<T>(s: Seq<T>, key: spec_fn(T) -> Ordering) -> bool {
    forall|i: int, j: int|
        0 <= i < j < s.len() ==> {
            &&& key(#[trigger] s[j]) == Ordering::Less ==> key(#[trigger] s[i]) == Ordering::Less
            &&& key(s[i]) == Ordering::Greater ==> key(s[j]) == Ordering::Greater
        }
}

/// `r` says where `key` is `Equal` in `s`: `Ok` with the last such position, or
/// `Err` with the position where such an element would have to stand.
pub open spec fn located<T>(s: Seq<T>, key: spec_fn(T) -> Ordering, r: Result<usize, usize>) -> bool {
    match r {
        Ok(i) => {
            &&& i < s.len()
            &&& key(at(s, i)) == Ordering::Equal
            &&& forall|j: int| i < j < s.len() ==> key(#[trigger] s[j]) == Ordering::Greater
        },
        Err(i) => {
            &&& i <= s.len()
            &&& forall|j: int| 0 <= j < i ==> key(#[trigger] s[j]) == Ordering::Less
            &&& forall|j: int| i <= j < s.len() ==> key(#[trigger] s[j]) == Ordering::Greater
        },
    }
}

/// `r` is a position in `s` where it is `Ok`, and a position in `s` or its end
/// where it is `Err`.
pub open spec fn in_bounds<T>(s: Seq<T>, r: Result<usize, usize>) -> bool {
    match r {
        Ok(i) => i < s.len(),
        Err(i) => i <= s.len(),
    }
}

/// `r` is what a search of `s` has to return for every `key` that `probe`
/// computes on `s` and that ascends along `s`.
pub open spec fn found_for<T, F>(probe: F, s: Seq<T>, r: Result<usize, usize>) -> bool
    where F: FnMut(&T) -> Ordering
{
    forall|key: spec_fn(T) -> Ordering| #[trigger] guides(probe, key, s) ==> located(s, key, r)
}

/// How `Ord` places a value with respect to `target`.
pub open spec fn compared_to<T: Ord>(target: T) -> spec_fn(T) -> Ordering {
    |a: T| a.cmp_spec(&target)
}

/// How `Ord` places the key that `project` gives a value with respect to `key`.
pub open spec fn key_compared_to<T, K: Ord>(project: spec_fn(T) -> K, key: K) -> spec_fn(T) -> Ordering {
    |a: T| project(a).cmp_spec(&key)
}

/// `r` is what a search of `s` for `key` has to return for every `project` that
/// `extract` computes on `s` and whose keys ascend along `s`.
pub open spec fn found_for_key<T, K: Ord, F>(
    extract: F,
    key: K,
    s: Seq<T>,
    r: Result<usize, usize>,
) -> bool
    where F: Fn(&T) -> K
{
    forall|project: spec_fn(T) -> K| #[trigger]
        crate::order::extracts(extract, project, s.to_set()) && K::obeys_cmp_spec() && ascending(
            s,
            key_compared_to(project, key),
        ) ==> located(s, key_compared_to(project, key), r)
}

/// `judge` may be called on every element of `s` but the first together with
/// the one before it.
pub open spec fn judgeable<T, F>(judge: F, s: Seq<T>) -> bool
    where F: FnMut(&T, &T) -> Option<Ordering>
{
    forall|a: &T, b: &T| s.contains(*a) && s.contains(*b) ==> #[trigger] call_requires(judge, (a, b))
}

/// Whatever `judge` answers for two elements of `s` is what `rel` says.
pub open spec fn judges<T, F>(judge: F, rel: spec_fn(T, T) -> Option<Ordering>, s: Seq<T>) -> bool
    where F: FnMut(&T, &T) -> Option<Ordering>
{
    forall|a: T, b: T, o: Option<Ordering>|
        s.contains(a) && s.contains(b) && #[trigger] call_ensures(judge, (&a, &b), o) ==> o == rel(
            a,
            b,
        )
}

/// `rel` does not place the element of `s` before position `i` after the one
/// at `i`.
pub open spec fn step<T>(s: Seq<T>, rel: spec_fn(T, T) -> Option<Ordering>, i: int) -> bool {
    rel(s[i - 1], s[i]) != Some(Ordering::Greater)
}

/// `rel` places no element of `s` after the one that follows it.
pub open spec fn stepwise<T>(s: Seq<T>, rel: spec_fn(T, T) -> Option<Ordering>) -> bool {
    forall|i: int| 0 < i < s.len() ==> #[trigger] step(s, rel, i)
}

/// `r` says whether `s` is in order, for every `rel` that `judge` computes on `s`.
pub open spec fn judged_for<T, F>(judge: F, s: Seq<T>, r: bool) -> bool
    where F: FnMut(&T, &T) -> Option<Ordering>
{
    forall|rel: spec_fn(T, T) -> Option<Ordering>| #[trigger]
        judges(judge, rel, s) ==> r == stepwise(s, rel)
}

/// The order that `PartialOrd` gives the values of `T`.
pub open spec fn natural_partial_order<T: PartialOrd>() -> spec_fn(T, T) -> Option<Ordering> {
    |a: T, b: T| a.partial_cmp_spec(&b)
}

/// The order of the values of `T` by what `project` makes of them.
pub open spec fn partial_order_by_key<T, K: PartialOrd>(project: spec_fn(T) -> K) -> spec_fn(
    T,
    T,
) -> Option<Ordering> {
    |a: T, b: T| project(a).partial_cmp_spec(&project(b))
}

/// `r` says whether the keys of `s` are in order, for every `project` that
/// `extract` computes on `s`.
pub open spec fn judged_for_key<T, K: PartialOrd, F>(extract: F, s: Seq<T>, r: bool) -> bool
    where F: Fn(&T) -> K
{
    forall|project: spec_fn(T) -> K| #[trigger]
        crate::order::extracts(extract, project, s.to_set()) && K::obeys_partial_cmp_spec() ==> r
            == stepwise(s, partial_order_by_key(project))
}

} // verus!
