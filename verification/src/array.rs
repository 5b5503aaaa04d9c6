//! The traits [`HasLength`], [`Array`], [`ArrayAccess`] and [`ArrayMut`].
//!
//! Each method has a contract over `elements`, the sequence that the array
//! stands for. A type that wants the contracts states `spec_len` and `elements`
//! and shows that [`is_array`] holds of them; every method asks for that.

use crate::order::{
    at, comparable, extractable, extracts, may_extract, may_give, natural_order, order_by_key,
    orders, pos, sorted_by, sorted_for, sorted_for_key, total_preorder,
};
use crate::search::{
    ascending, compared_to, found_for, found_for_key, guides, holds, in_bounds, judgeable,
    judged_for, judged_for_key, judges, key_compared_to, located, matches_at,
    natural_partial_order, partial_order_by_key, probeable, step, stepwise,
};
use std::cmp::Ordering;
use std::ops::{Index, IndexMut};
use vstd::prelude::*;
use vstd::std_specs::cmp::{OrdSpec, PartialEqSpec, PartialOrdSpec};

verus! {

/// Trait for data structures which have a length.
pub trait HasLength {
    /// The length, as contracts see it. The implementer states it; until then
    /// nothing is known of it.
    open spec fn spec_len(&self) -> nat {
        arbitrary()
    }

    /// Return the length of the data structure.
    fn len(&self) -> (n: usize)
        ensures
            n == self.spec_len(),
    ;

    /// Return whether the data structure is empty.
    fn is_empty(&self) -> (b: bool)
        ensures
            b <==> self.spec_len() == 0,
    {
        self.len() == 0
    }
}

/// `len` is the number of `elements`, a number that fits a `usize`, and to
/// index `array` below `len` is allowed and gives the element of `elements`
/// there.
#[verifier::opaque]
pub open spec fn is_array<Arr>(array: &Arr, elements: Seq<Arr::Output>, len: nat) -> bool
    where Arr: Index<usize> + ?Sized, <Arr as Index<usize>>::Output: Sized
{
    &&& elements.len() == len
    &&& len <= usize::MAX
    &&& forall|index: usize|
        index < len ==> #[trigger] vstd::std_specs::core::IndexSpec::index_req(array, &index)
    &&& forall|index: usize, out: &Arr::Output|
        index < len && #[trigger] call_ensures(
            <Arr as Index<usize>>::index,
            (array, index),
            out,
        ) ==> *out == elements[index as int]
}

/// An array has as many elements as its length says, a number that fits a
/// `usize`.
pub proof fn lemma_is_array_len<Arr>(array: &Arr, elements: Seq<Arr::Output>, len: nat)
    where Arr: Index<usize> + ?Sized, <Arr as Index<usize>>::Output: Sized
    requires
        is_array(array, elements, len),
    ensures
        elements.len() == len,
        len <= usize::MAX,
{
    reveal(is_array);
}

/// Trait for data structures which are indexed like arrays.
///
/// Types implementing this trait must have populated indexes from
/// `0` up to but not including `self.len()`. The implementer states which
/// elements these are in `elements`; the methods ask that `is_array` holds of
/// them, of `spec_len` and of the array.
pub trait Array: HasLength + Index<usize> where <Self as Index<usize>>::Output: Sized {
    /// The elements in index order. The implementer states them; until then
    /// nothing is known of them.
    open spec fn elements(&self) -> Seq<Self::Output> {
        arbitrary()
    }

    /// Get a reference to the element at the given index.
    fn get(&self, index: usize) -> (r: Option<&Self::Output>)
        requires
            is_array(self, self.elements(), self.spec_len()),
        ensures
            r == (if index < self.spec_len() {
                Some(&self.elements()[index as int])
            } else {
                None
            }),
    {
        if index >= self.len() {
            None
        } else {
            proof {
                reveal(is_array);
            }
            let out = &self[index];
            Some(out)
        }
    }

    /// Get a reference to the first element in the array.
    fn first(&self) -> (r: Option<&Self::Output>)
        requires
            is_array(self, self.elements(), self.spec_len()),
        ensures
            r == (if self.spec_len() > 0 {
                Some(&self.elements()[0])
            } else {
                None
            }),
    {
        self.get(0)
    }

    /// Get a reference to the last element in the array.
    fn last(&self) -> (r: Option<&Self::Output>)
        requires
            is_array(self, self.elements(), self.spec_len()),
        ensures
            r == (if self.spec_len() > 0 {
                Some(&self.elements()[self.spec_len() - 1])
            } else {
                None
            }),
    {
        if self.is_empty() {
            None
        } else {
            self.get(self.len() - 1)
        }
    }

    /// Return true if an element equivalent to `target` exists in the array.
    fn contains(&self, target: &Self::Output) -> (r: bool)
        where Self::Output: PartialEq
        requires
            is_array(self, self.elements(), self.spec_len()),
        ensures
            Self::Output::obeys_eq_spec() ==> r == holds(self.elements(), *target),
    {
        let n = self.len();
        let mut index: usize = 0;
        while index < n
            invariant
                is_array(self, self.elements(), self.spec_len()),
                n == self.spec_len(),
                index <= n,
                Self::Output::obeys_eq_spec() ==> !holds(self.elements().take(index as int), *target),
            decreases n - index,
        {
            proof {
                reveal(is_array);
            }
            let out = &self[index];
            if out == target {
                return true;
            }
            proof {
                if Self::Output::obeys_eq_spec() {
                    let before = self.elements().take(index as int);
                    let after = self.elements().take(index + 1);
                    assert forall|i: int| 0 <= i < after.len() implies !#[trigger] after[i].eq_spec(
                        target,
                    ) by {
                        if i < index {
                            assert(before[i] == after[i]);
                        }
                    }
                }
            }
            index += 1;
        }
        proof {
            reveal(is_array);
            assert(self.elements().take(index as int) == self.elements());
        }
        false
    }

    /// Perform a binary search for `target`.
    ///
    /// Where `Ord` places the elements in ascending order with respect to
    /// `target`, the result is `Ok` with the last position of an element that
    /// equals it, or `Err` with the position where it would have to stand.
    fn binary_search(&self, target: &Self::Output) -> (r: Result<usize, usize>)
        where Self::Output: Ord
        requires
            is_array(self, self.elements(), self.spec_len()),
        ensures
            in_bounds(self.elements(), r),
            Self::Output::obeys_cmp_spec() && ascending(self.elements(), compared_to(*target))
                ==> located(self.elements(), compared_to(*target), r),
    {
        let probe = |value: &Self::Output| -> (o: Ordering)
            ensures
                Self::Output::obeys_cmp_spec() ==> o == value.cmp_spec(target),
            {
                value.cmp(target)
            };
        let r = self.binary_search_by(probe);
        proof {
            if Self::Output::obeys_cmp_spec() && ascending(self.elements(), compared_to(*target)) {
                assert(guides(probe, compared_to(*target), self.elements()));
            }
        }
        r
    }

    /// Perform a binary search using a comparator function.
    ///
    /// `compare` says where the element sought stands with respect to the one it
    /// is given. Where its answers ascend along the array, the result is `Ok`
    /// with the last position for which the answer is `Equal`, or `Err` with the
    /// position where such an element would have to stand.
    fn binary_search_by<F>(&self, compare: F) -> (r: Result<usize, usize>)
        where F: FnMut(&Self::Output) -> Ordering
        requires
            is_array(self, self.elements(), self.spec_len()),
            probeable(compare, self.elements()),
        ensures
            in_bounds(self.elements(), r),
            self.spec_len() == 0 ==> r == Err::<usize, usize>(0),
            found_for(compare, self.elements(), r),
    {
        let mut probe = compare;
        let ghost s = self.elements();
        let mut size = self.len();
        proof {
            reveal(is_array);
        }
        if size == 0 {
            return Err(0);
        }
        let mut base: usize = 0;
        while size > 1
            invariant
                is_array(self, self.elements(), self.spec_len()),
                s == self.elements(),
                s.len() == self.spec_len(),
                1 <= size,
                base + size <= s.len() <= usize::MAX,
                probe == compare,
                probeable(compare, s),
                forall|key: spec_fn(Self::Output) -> Ordering| #[trigger]
                    guides(compare, key, s) ==> {
                        &&& base == 0 || key(at(s, base)) != Ordering::Greater
                        &&& forall|j: int|
                            base + size <= j < s.len() ==> key(#[trigger] s[j])
                                == Ordering::Greater
                    },
            decreases size,
        {
            let half = size / 2;
            let mid = base + half;
            proof {
                reveal(is_array);
            }
            let value = &self[mid];
            proof {
                assert(s.contains(*value));
            }
            let o = probe(value);
            base = match o {
                Ordering::Greater => base,
                _ => mid,
            };
            size -= half;
            proof {
                assert forall|key: spec_fn(Self::Output) -> Ordering| #[trigger]
                    guides(compare, key, s) implies {
                    &&& base == 0 || key(at(s, base)) != Ordering::Greater
                    &&& forall|j: int|
                        base + size <= j < s.len() ==> key(#[trigger] s[j]) == Ordering::Greater
                } by {
                    assert(key(*value) == o);
                    if o == Ordering::Greater {
                        assert forall|j: int| base + size <= j < s.len() implies key(
                            #[trigger] s[j],
                        ) == Ordering::Greater by {
                            if j > mid {
                                assert(key(at(s, mid)) == Ordering::Greater);
                            }
                        }
                    }
                }
            }
        }
        proof {
            reveal(is_array);
        }
        let value = &self[base];
        proof {
            assert(s.contains(*value));
        }
        let o = probe(value);
        let r = match o {
            Ordering::Equal => Ok(base),
            Ordering::Less => Err(base + 1),
            Ordering::Greater => Err(base),
        };
        proof {
            assert forall|key: spec_fn(Self::Output) -> Ordering| #[trigger]
                guides(compare, key, s) implies located(s, key, r) by {
                assert(key(at(s, base)) == o);
                if o == Ordering::Less {
                    assert forall|j: int| 0 <= j < base + 1 implies key(#[trigger] s[j])
                        == Ordering::Less by {
                        if j < base {
                            assert(key(at(s, base)) == Ordering::Less);
                        }
                    }
                }
            }
        }
        r
    }

    /// Perform a binary search using a key and a key extractor function.
    ///
    /// Where `Ord` places the keys of the elements in ascending order with
    /// respect to `key`, the result is `Ok` with the last position of an element
    /// whose key equals it, or `Err` with the position where such an element
    /// would have to stand.
    fn binary_search_by_key<K, F>(&self, key: &K, extract: F) -> (r: Result<usize, usize>)
        where F: Fn(&Self::Output) -> K, K: Ord
        requires
            is_array(self, self.elements(), self.spec_len()),
            extractable(extract, self.elements().to_set()),
        ensures
            in_bounds(self.elements(), r),
            found_for_key(extract, *key, self.elements(), r),
    {
        let probe = |value: &Self::Output| -> (o: Ordering)
            requires
                may_extract(&extract, value),
            ensures
                exists|k: K| #[trigger]
                    may_give(&extract, value, k) && (K::obeys_cmp_spec() ==> o == k.cmp_spec(key)),
            {
                let k = extract(value);
                let o = k.cmp(key);
                proof {
                    assert(may_give(&extract, value, k));
                }
                o
            };
        let r = self.binary_search_by(probe);
        proof {
            let s = self.elements();
            assert forall|project: spec_fn(Self::Output) -> K| #[trigger]
                extracts(extract, project, s.to_set()) && K::obeys_cmp_spec() && ascending(
                    s,
                    key_compared_to(project, *key),
                ) implies located(s, key_compared_to(project, *key), r) by {
                assert(guides(probe, key_compared_to(project, *key), s));
            }
        }
        r
    }

    /// Test whether the array is sorted.
    ///
    /// It is where `PartialOrd` places no element after the one that follows it.
    fn is_sorted(&self) -> (r: bool)
        where Self::Output: PartialOrd
        requires
            is_array(self, self.elements(), self.spec_len()),
        ensures
            Self::Output::obeys_partial_cmp_spec() ==> r == stepwise(
                self.elements(),
                natural_partial_order::<Self::Output>(),
            ),
    {
        let judge = |l: &Self::Output, r: &Self::Output| -> (o: Option<Ordering>)
            ensures
                Self::Output::obeys_partial_cmp_spec() ==> o == l.partial_cmp_spec(r),
            {
                l.partial_cmp(r)
            };
        let r = self.is_sorted_by(judge);
        proof {
            if Self::Output::obeys_partial_cmp_spec() {
                assert(judges(judge, natural_partial_order::<Self::Output>(), self.elements()));
            }
        }
        r
    }

    /// Test whether the array is sorted using a comparator function.
    ///
    /// It is where `compare` places no element after the one that follows it.
    fn is_sorted_by<F>(&self, compare: F) -> (r: bool)
        where F: FnMut(&Self::Output, &Self::Output) -> Option<Ordering>
        requires
            is_array(self, self.elements(), self.spec_len()),
            judgeable(compare, self.elements()),
        ensures
            judged_for(compare, self.elements(), r),
    {
        let mut judge = compare;
        let ghost s = self.elements();
        let n = self.len();
        proof {
            reveal(is_array);
        }
        if n < 2 {
            true
        } else {
            let mut i: usize = 1;
            while i < n
                invariant
                    is_array(self, self.elements(), self.spec_len()),
                    s == self.elements(),
                    s.len() == self.spec_len(),
                    n == s.len(),
                    1 <= i <= n,
                    judge == compare,
                    judgeable(compare, s),
                    forall|rel: spec_fn(Self::Output, Self::Output) -> Option<Ordering>| #[trigger]
                        judges(compare, rel, s) ==> forall|k: int|
                            0 < k < i ==> #[trigger] step(s, rel, k),
                decreases n - i,
            {
                let prior = i - 1;
                proof {
                    reveal(is_array);
                }
                let before = &self[prior];
                let here = &self[i];
                proof {
                    assert(s.contains(*before) && s.contains(*here));
                }
                let o = judge(before, here);
                let descends = match o {
                    Some(Ordering::Greater) => true,
                    _ => false,
                };
                if descends {
                    proof {
                        assert forall|rel: spec_fn(Self::Output, Self::Output) -> Option<
                            Ordering,
                        >| #[trigger] judges(compare, rel, s) implies !stepwise(s, rel) by {
                            assert(rel(*before, *here) == o);
                            assert(!step(s, rel, pos(i)));
                        }
                    }
                    return false;
                }
                proof {
                    assert forall|rel: spec_fn(Self::Output, Self::Output) -> Option<
                        Ordering,
                    >| #[trigger] judges(compare, rel, s) implies forall|k: int|
                        0 < k < i + 1 ==> #[trigger] step(s, rel, k) by {
                        assert(rel(*before, *here) == o);
                        assert(step(s, rel, pos(i)));
                    }
                }
                i += 1;
            }
            true
        }
    }

    /// Test whether the array is sorted using a key extractor function.
    ///
    /// It is where `PartialOrd` places the key of no element after the key of the
    /// one that follows it.
    fn is_sorted_by_key<K, F>(&self, extract: F) -> (r: bool)
        where F: Fn(&Self::Output) -> K, K: PartialOrd<K>
        requires
            is_array(self, self.elements(), self.spec_len()),
            extractable(extract, self.elements().to_set()),
        ensures
            judged_for_key(extract, self.elements(), r),
    {
        let judge = |l: &Self::Output, r: &Self::Output| -> (o: Option<Ordering>)
            requires
                may_extract(&extract, l),
                may_extract(&extract, r),
            ensures
                exists|kl: K, kr: K| #[trigger]
                    may_give(&extract, l, kl) && #[trigger] may_give(&extract, r, kr) && (
                    K::obeys_partial_cmp_spec() ==> o == kl.partial_cmp_spec(&kr)),
            {
                let kl = extract(l);
                let kr = extract(r);
                let o = kl.partial_cmp(&kr);
                proof {
                    assert(may_give(&extract, l, kl) && may_give(&extract, r, kr));
                }
                o
            };
        let r = self.is_sorted_by(judge);
        proof {
            let s = self.elements();
            assert forall|project: spec_fn(Self::Output) -> K| #[trigger]
                extracts(extract, project, s.to_set())
                    && K::obeys_partial_cmp_spec() implies r == stepwise(
                s,
                partial_order_by_key(project),
            ) by {
                assert(judges(judge, partial_order_by_key(project), s));
            }
        }
        r
    }

    /// Test whether the array starts with the elements in `slice`.
    fn starts_with(&self, slice: &[Self::Output]) -> (r: bool)
        where Self::Output: PartialEq
        requires
            is_array(self, self.elements(), self.spec_len()),
        ensures
            Self::Output::obeys_eq_spec() ==> r == matches_at(self.elements(), slice@, 0),
    {
        let n = self.len();
        proof {
            reveal(is_array);
        }
        if slice.len() > n {
            return false;
        }
        let mut i: usize = 0;
        while i < slice.len()
            invariant
                is_array(self, self.elements(), self.spec_len()),
                n == self.spec_len(),
                self.elements().len() == n,
                i <= slice@.len() <= n,
                Self::Output::obeys_eq_spec() ==> forall|k: int|
                    0 <= k < i ==> (#[trigger] self.elements()[0 + k]).eq_spec(&slice@[k]),
            decreases slice@.len() - i,
        {
            proof {
                reveal(is_array);
            }
            let here = &self[i];
            if *here != slice[i] {
                proof {
                    if Self::Output::obeys_eq_spec() {
                        assert(!(self.elements()[0 + i]).eq_spec(&slice@[i as int]));
                    }
                }
                return false;
            }
            i += 1;
        }
        true
    }

    /// Test whether the array ends with the elements in `slice`.
    fn ends_with(&self, slice: &[Self::Output]) -> (r: bool)
        where Self::Output: PartialEq
        requires
            is_array(self, self.elements(), self.spec_len()),
        ensures
            Self::Output::obeys_eq_spec() ==> r == matches_at(
                self.elements(),
                slice@,
                self.spec_len() - slice@.len(),
            ),
    {
        let n = self.len();
        proof {
            reveal(is_array);
        }
        if slice.len() > n {
            return false;
        }
        let offset = n - slice.len();
        let mut i: usize = 0;
        while i < slice.len()
            invariant
                is_array(self, self.elements(), self.spec_len()),
                n == self.spec_len(),
                self.elements().len() == n,
                i <= slice@.len() <= n,
                offset == n - slice@.len(),
                Self::Output::obeys_eq_spec() ==> forall|k: int|
                    0 <= k < i ==> (#[trigger] self.elements()[offset + k]).eq_spec(&slice@[k]),
            decreases slice@.len() - i,
        {
            let place = offset + i;
            proof {
                reveal(is_array);
            }
            let here = &self[place];
            if *here != slice[i] {
                proof {
                    if Self::Output::obeys_eq_spec() {
                        assert(!(self.elements()[offset + i]).eq_spec(&slice@[i as int]));
                    }
                }
                return false;
            }
            i += 1;
        }
        true
    }
}

/// Trait for arrays whose elements can be reached to be changed.
///
/// The implementer supplies `get_mut` and `map_pair`, the two ways into the
/// storage; the other methods are built on them.
pub trait ArrayAccess: Array + IndexMut<usize> where <Self as Index<usize>>::Output: Sized {
    /// Get a mutable reference to the element at the given index.
    ///
    /// What is written through the reference replaces that element and no other.
    fn get_mut(&mut self, index: usize) -> (r: Option<&mut Self::Output>)
        requires
            is_array(old(self), old(self).elements(), old(self).spec_len()),
        ensures
            is_array(final(self), final(self).elements(), final(self).spec_len()),
            index >= old(self).spec_len() ==> r is None && final(self).elements() == old(self).elements(),
            index < old(self).spec_len() ==> r is Some && *r.unwrap() == old(self).elements()[index as int]
                && final(self).elements() == old(self).elements().update(
                index as int,
                *final(r.unwrap()),
            ),
    ;

    /// Get a mutable reference to the first element in the array.
    fn first_mut(&mut self) -> (r: Option<&mut Self::Output>)
        requires
            is_array(old(self), old(self).elements(), old(self).spec_len()),
        ensures
            is_array(final(self), final(self).elements(), final(self).spec_len()),
            old(self).spec_len() == 0 ==> r is None && final(self).elements() == old(self).elements(),
            old(self).spec_len() > 0 ==> r is Some && *r.unwrap() == old(self).elements()[0]
                && final(self).elements() == old(self).elements().update(0, *final(r.unwrap())),
    {
        self.get_mut(0)
    }

    /// Get a mutable reference to the last element in the array.
    fn last_mut(&mut self) -> (r: Option<&mut Self::Output>)
        requires
            is_array(old(self), old(self).elements(), old(self).spec_len()),
        ensures
            is_array(final(self), final(self).elements(), final(self).spec_len()),
            old(self).spec_len() == 0 ==> r is None && final(self).elements() == old(self).elements(),
            old(self).spec_len() > 0 ==> r is Some && *r.unwrap() == old(self).elements()[old(self).spec_len() - 1] && final(self).elements() == old(self).elements().update(
                old(self).spec_len() - 1,
                *final(r.unwrap()),
            ),
    {
        if self.is_empty() {
            None
        } else {
            let last = self.len() - 1;
            self.get_mut(last)
        }
    }

    /// Set the value of the element at the given index.
    ///
    /// Returns the previous value, or `None` if the index is out of bounds.
    fn set(&mut self, index: usize, value: Self::Output) -> (r: Option<Self::Output>)
        requires
            is_array(old(self), old(self).elements(), old(self).spec_len()),
        ensures
            is_array(final(self), final(self).elements(), final(self).spec_len()),
            index >= old(self).spec_len() ==> r is None && final(self).elements() == old(self).elements(),
            index < old(self).spec_len() ==> r == Some(old(self).elements()[index as int])
                && final(self).elements() == old(self).elements().update(index as int, value),
    {
        let mut value = value;
        match self.get_mut(index) {
            Some(place) => {
                std::mem::swap(place, &mut value);
                Some(value)
            },
            None => None,
        }
    }

    /// Swap the elements at two indexes.
    fn swap(&mut self, index1: usize, index2: usize)
        requires
            is_array(old(self), old(self).elements(), old(self).spec_len()),
            index1 < old(self).spec_len(),
            index2 < old(self).spec_len(),
        ensures
            is_array(final(self), final(self).elements(), final(self).spec_len()),
            final(self).elements() == exchanged(old(self).elements(), index1 as int, index2 as int),
    {
        if index1 != index2 {
            proof {
                reveal(is_array);
            }
            let exchange = |a: &mut Self::Output, b: &mut Self::Output| -> (done: ())
                ensures
                    *final(a) == *old(b),
                    *final(b) == *old(a),
                {
                    std::mem::swap(a, b)
                };
            self.map_pair(index1, index2, exchange);
            proof {
                assert(self.elements() =~= exchanged(
                    old(self).elements(),
                    index1 as int,
                    index2 as int,
                ));
            }
        } else {
            proof {
                reveal(is_array);
                assert(self.elements() =~= exchanged(
                    old(self).elements(),
                    index1 as int,
                    index2 as int,
                ));
            }
        }
    }

    /// Get mutable references to the elements at two indexes and call a function on them.
    ///
    /// This provides a safe way to get two mutable references into an array at the same time,
    /// which would normally be disallowed by the borrow checker. The indexes must differ.
    /// What `f` leaves behind the two references replaces those two elements and no other.
    fn map_pair<F, A>(&mut self, index1: usize, index2: usize, f: F) -> (r: A)
        where F: FnMut(&mut Self::Output, &mut Self::Output) -> A
        requires
            is_array(old(self), old(self).elements(), old(self).spec_len()),
            index1 != index2,
            index1 < old(self).spec_len(),
            index2 < old(self).spec_len(),
            accepts_pair(f, old(self).elements()[index1 as int], old(self).elements()[index2 as int]),
        ensures
            is_array(final(self), final(self).elements(), final(self).spec_len()),
            exists|a: &mut Self::Output, b: &mut Self::Output|
                {
                    &&& *a == old(self).elements()[index1 as int]
                    &&& *b == old(self).elements()[index2 as int]
                    &&& #[trigger] call_ensures(f, (a, b), r)
                    &&& final(self).elements() == old(self).elements().update(
                        index1 as int,
                        *final(a),
                    ).update(index2 as int, *final(b))
                },
    ;
}

/// Trait for arrays with mutable indexes.
///
/// Every [`ArrayAccess`] can be one: the methods here sort it.
pub trait ArrayMut: ArrayAccess where <Self as Index<usize>>::Output: Sized {
    /// Sort the elements of the array.
    ///
    /// The array keeps its elements. Where `Ord` gives a total preorder on them,
    /// they stand in that order afterwards.
    fn sort_unstable(&mut self)
        where Self::Output: Ord
        requires
            is_array(old(self), old(self).elements(), old(self).spec_len()),
        ensures
            is_array(final(self), final(self).elements(), final(self).spec_len()),
            final(self).elements().to_multiset() == old(self).elements().to_multiset(),
            old(self).elements().len() <= 1 ==> final(self).elements() == old(self).elements(),
            Self::Output::obeys_cmp_spec() && total_preorder(
                natural_order::<Self::Output>(),
                old(self).elements().to_set(),
            ) ==> sorted_by(final(self).elements(), natural_order::<Self::Output>()),
    {
        let ghost before = self.elements();
        let by_order = |l: &Self::Output, r: &Self::Output| -> (o: Ordering)
            ensures
                Self::Output::obeys_cmp_spec() ==> o == l.cmp_spec(r),
            {
                l.cmp(r)
            };
        self.sort_unstable_by(by_order);
        proof {
            if Self::Output::obeys_cmp_spec() && total_preorder(
                natural_order::<Self::Output>(),
                before.to_set(),
            ) {
                assert(orders(by_order, natural_order::<Self::Output>(), before.to_set()));
            }
        }
    }

    /// Sort the elements of the array using a comparator function.
    ///
    /// The array keeps its elements, and one of at most one element stays as it
    /// is. Where `compare` computes a total preorder on the elements, they stand
    /// in that order afterwards; elements that it calls equal may change their
    /// order.
    fn sort_unstable_by<F>(&mut self, compare: F)
        where F: Fn(&Self::Output, &Self::Output) -> Ordering
        requires
            is_array(old(self), old(self).elements(), old(self).spec_len()),
            comparable(compare, old(self).elements().to_set()),
        ensures
            is_array(final(self), final(self).elements(), final(self).spec_len()),
            final(self).elements().to_multiset() == old(self).elements().to_multiset(),
            old(self).elements().len() <= 1 ==> final(self).elements() == old(self).elements(),
            sorted_for(compare, old(self).elements(), final(self).elements()),
    {
        let n = self.len();
        proof {
            reveal(is_array);
        }
        if n > 1 {
            crate::sort::quicksort(self, 0, n - 1, compare);
        }
    }

    /// Sort the elements of the array using a key extractor function.
    ///
    /// The array keeps its elements. Where `extract` computes a key for each of
    /// them and `Ord` gives a total preorder on the keys, they stand in the order
    /// of their keys afterwards.
    fn sort_unstable_by_key<F, K>(&mut self, extract: F)
        where F: Fn(&Self::Output) -> K, K: Ord
        requires
            is_array(old(self), old(self).elements(), old(self).spec_len()),
            extractable(extract, old(self).elements().to_set()),
        ensures
            is_array(final(self), final(self).elements(), final(self).spec_len()),
            final(self).elements().to_multiset() == old(self).elements().to_multiset(),
            old(self).elements().len() <= 1 ==> final(self).elements() == old(self).elements(),
            sorted_for_key(extract, old(self).elements(), final(self).elements()),
    {
        let ghost before = self.elements();
        let by_key = |l: &Self::Output, r: &Self::Output| -> (o: Ordering)
            requires
                may_extract(&extract, l),
                may_extract(&extract, r),
            ensures
                exists|kl: K, kr: K| #[trigger]
                    may_give(&extract, l, kl) && #[trigger] may_give(&extract, r, kr) && (
                    K::obeys_cmp_spec() ==> o == kl.cmp_spec(&kr)),
            {
                let kl = extract(l);
                let kr = extract(r);
                let o = kl.cmp(&kr);
                proof {
                    assert(may_give(&extract, l, kl) && may_give(&extract, r, kr));
                }
                o
            };
        self.sort_unstable_by(by_key);
        proof {
            let after = self.elements();
            assert forall|key: spec_fn(Self::Output) -> K| #[trigger]
                extracts(extract, key, before.to_set()) && K::obeys_cmp_spec()
                    && total_preorder(order_by_key(key), before.to_set()) implies sorted_by(
                after,
                order_by_key(key),
            ) by {
                assert(orders(by_key, order_by_key(key), before.to_set()));
            }
        }
    }
}

/// `f` may be called on two references of which the first holds `x` and the
/// second `y`.
pub open spec fn accepts_pair<T, F, R>(f: F, x: T, y: T) -> bool
    where F: FnMut(&mut T, &mut T) -> R
{
    forall|a: &mut T, b: &mut T| *a == x && *b == y ==> #[trigger] call_requires(f, (a, b))
}

/// `s` with the elements at `i` and `j` exchanged.
pub open spec fn exchanged<T>(s: Seq<T>, i: int, j: int) -> Seq<T> {
    s.update(i, s[j]).update(j, s[i])
}

} // verus!
