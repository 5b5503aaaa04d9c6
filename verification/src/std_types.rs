//! [`Array`] and [`ArrayMut`] for the containers of the standard library.

use crate::array::{accepts_pair, is_array, Array, ArrayAccess, ArrayMut, HasLength};
use std::collections::VecDeque;
use crate::array::exchanged;
use crate::search::holds;
use vstd::prelude::*;
use vstd::std_specs::cmp::PartialEqSpec;

verus! {

/// `VecDeque::get`: a reference to the element at `index`, or `None` where the
/// deque is no longer than that.
#[verifier::external_body]
fn deque_get<A>(deque: &VecDeque<A>, index: usize) -> (r: Option<&A>)
    ensures
        r == (if index < deque@.len() {
            Some(&deque@[index as int])
        } else {
            None
        }),
{
    deque.get(index)
}

/// `VecDeque::contains`: whether the deque holds an element equal to `target`.
/// The claim is made for element types whose `==` is what `eq_spec` says.
#[verifier::external_body]
fn deque_contains<A: PartialEq>(deque: &VecDeque<A>, target: &A) -> (r: bool)
    ensures
        A::obeys_eq_spec() ==> r == holds(deque@, *target),
{
    deque.contains(target)
}

/// `VecDeque::swap`: exchanges the elements at `index1` and `index2`, which
/// may be the same. It panics where an index is out of bounds.
#[verifier::external_body]
fn deque_swap<A>(deque: &mut VecDeque<A>, index1: usize, index2: usize)
    requires
        index1 < old(deque)@.len(),
        index2 < old(deque)@.len(),
    ensures
        final(deque)@ == exchanged(old(deque)@, index1 as int, index2 as int),
{
    deque.swap(index1, index2)
}

/// `VecDeque::get_mut`: a reference to the element at `index`, or `None` where
/// the deque is no longer than that. What is written through the reference
/// replaces that element; nothing else in the deque changes.
#[verifier::external_body]
fn deque_get_mut<A>(deque: &mut VecDeque<A>, index: usize) -> (r: Option<&mut A>)
    ensures
        index >= old(deque)@.len() ==> r is None && final(deque)@ == old(deque)@,
        index < old(deque)@.len() ==> r is Some && *r.unwrap() == old(deque)@[index as int]
            && final(deque)@ == old(deque)@.update(index as int, *final(r.unwrap())),
{
    deque.get_mut(index)
}

/// `VecDeque::as_mut_slices`: two slices that hold, one after the other, the
/// elements of the deque in order. Each keeps its length, and what is written
/// through them is what the deque holds afterwards.
#[verifier::external_body]
fn deque_as_mut_slices<A>(deque: &mut VecDeque<A>) -> (r: (&mut [A], &mut [A]))
    ensures
        r.0@ + r.1@ == old(deque)@,
        final(r.0)@.len() == r.0@.len(),
        final(r.1)@.len() == r.1@.len(),
        final(deque)@ == final(r.0)@ + final(r.1)@,
{
    deque.as_mut_slices()
}

/// A mutable reference to the element of `slice` at `index`.
fn slice_element_mut<A>(slice: &mut [A], index: usize) -> (r: &mut A)
    requires
        index < old(slice)@.len(),
    ensures
        *r == old(slice)@[index as int],
        final(slice)@ == old(slice)@.update(index as int, *final(r)),
{
    let (_, tail) = slice.split_at_mut(index);
    assert(tail@.len() > 0);
    match tail.first_mut() {
        Some(r) => r,
        None => vstd::pervasive::unreached(),
    }
}

/// Calls `f` on the elements of `slice` at `index1` and `index2`, which differ:
/// the slice is split between them, so that the two references cannot overlap.
fn slice_map_pair<A, B, F>(slice: &mut [A], index1: usize, index2: usize, f: F) -> (r: B)
    where F: FnMut(&mut A, &mut A) -> B
    requires
        index1 != index2,
        index1 < old(slice)@.len(),
        index2 < old(slice)@.len(),
        accepts_pair(f, old(slice)@[index1 as int], old(slice)@[index2 as int]),
    ensures
        exists|a: &mut A, b: &mut A|
            {
                &&& *a == old(slice)@[index1 as int]
                &&& *b == old(slice)@[index2 as int]
                &&& #[trigger] call_ensures(f, (a, b), r)
                &&& final(slice)@ == old(slice)@.update(index1 as int, *final(a)).update(
                    index2 as int,
                    *final(b),
                )
            },
{
    let mut f = f;
    if index1 < index2 {
        let (low, high) = slice.split_at_mut(index2);
        let a = slice_element_mut(low, index1);
        let b = slice_element_mut(high, 0);
        f(a, b)
    } else {
        let (low, high) = slice.split_at_mut(index1);
        let a = slice_element_mut(high, 0);
        let b = slice_element_mut(low, index2);
        f(a, b)
    }
}

/// Where `front` and `back` stand one after the other, the element at a position
/// of the whole is the element of the part that the position falls in, and to
/// replace two elements of the parts is to replace them in the whole.
proof fn lemma_joined_updates<A>(front: Seq<A>, back: Seq<A>, i: int, j: int)
    requires
        0 <= i < front.len() + back.len(),
        0 <= j < front.len() + back.len(),
    ensures
        (front + back).len() == front.len() + back.len(),
        i < front.len() ==> (front + back)[i] == front[i],
        i >= front.len() ==> (front + back)[i] == back[i - front.len()],
        j < front.len() ==> (front + back)[j] == front[j],
        j >= front.len() ==> (front + back)[j] == back[j - front.len()],
        forall|x: A, y: A|
            i < front.len() && j < front.len() ==> front.update(i, x).update(j, y) + back
                == #[trigger] (front + back).update(i, x).update(j, y),
        forall|x: A, y: A|
            i < front.len() && j >= front.len() ==> front.update(i, x) + back.update(
                j - front.len(),
                y,
            ) == #[trigger] (front + back).update(i, x).update(j, y),
        forall|x: A, y: A|
            i >= front.len() && j < front.len() ==> front.update(j, y) + back.update(
                i - front.len(),
                x,
            ) == #[trigger] (front + back).update(i, x).update(j, y),
        forall|x: A, y: A|
            i >= front.len() && j >= front.len() ==> front + back.update(
                i - front.len(),
                x,
            ).update(j - front.len(), y) == #[trigger] (front + back).update(i, x).update(j, y),
{
    assert forall|x: A, y: A| i < front.len() && j < front.len() implies front.update(
        i,
        x,
    ).update(j, y) + back == #[trigger] (front + back).update(i, x).update(j, y) by {
        assert(front.update(i, x).update(j, y) + back =~= (front + back).update(i, x).update(j, y));
    }
    assert forall|x: A, y: A| i < front.len() && j >= front.len() implies front.update(i, x)
        + back.update(j - front.len(), y) == #[trigger] (front + back).update(i, x).update(
        j,
        y,
    ) by {
        assert(front.update(i, x) + back.update(j - front.len(), y) =~= (front + back).update(
            i,
            x,
        ).update(j, y));
    }
    assert forall|x: A, y: A| i >= front.len() && j < front.len() implies front.update(j, y)
        + back.update(i - front.len(), x) == #[trigger] (front + back).update(i, x).update(
        j,
        y,
    ) by {
        assert(front.update(j, y) + back.update(i - front.len(), x) =~= (front + back).update(
            i,
            x,
        ).update(j, y));
    }
    assert forall|x: A, y: A| i >= front.len() && j >= front.len() implies front + back.update(
        i - front.len(),
        x,
    ).update(j - front.len(), y) == #[trigger] (front + back).update(i, x).update(j, y) by {
        assert(front + back.update(i - front.len(), x).update(j - front.len(), y) =~= (front
            + back).update(i, x).update(j, y));
    }
}

/// Calls `f` on the elements at `index1` and `index2`, which differ, of the
/// sequence that `front` and `back` make when one stands after the other.
fn joined_map_pair<A, B, F>(
    front: &mut [A],
    back: &mut [A],
    index1: usize,
    index2: usize,
    f: F,
) -> (r: B)
    where F: FnMut(&mut A, &mut A) -> B
    requires
        index1 != index2,
        index1 < old(front)@.len() + old(back)@.len(),
        index2 < old(front)@.len() + old(back)@.len(),
        accepts_pair(
            f,
            (old(front)@ + old(back)@)[index1 as int],
            (old(front)@ + old(back)@)[index2 as int],
        ),
    ensures
        final(front)@.len() == old(front)@.len(),
        final(back)@.len() == old(back)@.len(),
        exists|a: &mut A, b: &mut A|
            {
                &&& *a == (old(front)@ + old(back)@)[index1 as int]
                &&& *b == (old(front)@ + old(back)@)[index2 as int]
                &&& #[trigger] call_ensures(f, (a, b), r)
                &&& final(front)@ + final(back)@ == (old(front)@ + old(back)@).update(
                    index1 as int,
                    *final(a),
                ).update(index2 as int, *final(b))
            },
{
    let mut f = f;
    let split = front.len();
    proof {
        lemma_joined_updates(front@, back@, index1 as int, index2 as int);
    }
    if index1 < split {
        if index2 < split {
            slice_map_pair(front, index1, index2, f)
        } else {
            let a = slice_element_mut(front, index1);
            let b = slice_element_mut(back, index2 - split);
            f(a, b)
        }
    } else {
        if index2 < split {
            let a = slice_element_mut(back, index1 - split);
            let b = slice_element_mut(front, index2);
            f(a, b)
        } else {
            slice_map_pair(back, index1 - split, index2 - split, f)
        }
    }
}

/// Every deque is an array of the elements that it holds.
pub proof fn lemma_deque_is_array<A>(deque: &VecDeque<A>)
    ensures
        is_array(deque, deque.elements(), deque.spec_len()),
{
    reveal(is_array);
    vstd::std_specs::vecdeque::axiom_spec_len(deque);
    assert forall|index: usize| index < deque.spec_len() implies #[trigger]
        vstd::std_specs::core::IndexSpec::index_req(deque, &index) by {
        assert(vstd::std_specs::core::IndexSpec::index_req(deque, &index) == (index
            < vstd::std_specs::vecdeque::spec_vec_dequeue_len(deque)));
    }
}

impl<A> HasLength for VecDeque<A> {
    open spec fn spec_len(&self) -> nat {
        self@.len()
    }

    fn len(&self) -> usize {
        VecDeque::len(self)
    }
}

impl<A> Array for VecDeque<A> {
    open spec fn elements(&self) -> Seq<A> {
        self@
    }

    fn get(&self, index: usize) -> (r: Option<&A>) {
        deque_get(self, index)
    }

    fn contains(&self, target: &A) -> (r: bool)
        where A: PartialEq
    {
        deque_contains(self, target)
    }
}

impl<A> ArrayAccess for VecDeque<A> {
    fn get_mut(&mut self, index: usize) -> (r: Option<&mut A>) {
        proof {
            assert forall|deque: &VecDeque<A>| #[trigger]
                is_array(deque, deque@, deque@.len()) by {
                lemma_deque_is_array(deque);
            }
        }
        deque_get_mut(self, index)
    }

    fn swap(&mut self, index1: usize, index2: usize) {
        proof {
            assert forall|deque: &VecDeque<A>| #[trigger]
                is_array(deque, deque@, deque@.len()) by {
                lemma_deque_is_array(deque);
            }
        }
        deque_swap(self, index1, index2)
    }

    fn map_pair<F, B>(&mut self, index1: usize, index2: usize, f: F) -> (r: B)
        where F: FnMut(&mut A, &mut A) -> B
    {
        proof {
            assert forall|deque: &VecDeque<A>| #[trigger]
                is_array(deque, deque@, deque@.len()) by {
                lemma_deque_is_array(deque);
            }
        }
        let (front, back) = deque_as_mut_slices(self);
        joined_map_pair(front, back, index1, index2, f)
    }
}

impl<A> ArrayMut for VecDeque<A> {

}

} // verus!
