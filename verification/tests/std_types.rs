use array_ops::{Array, ArrayAccess, ArrayMut, HasLength};
use std::collections::VecDeque;

#[test]
fn vec_deque() {
    let mut vec: VecDeque<_> = vec![3, 2, 1].into();
    assert_eq!(3, HasLength::len(&vec));
    assert_eq!(Some(&3), Array::first(&vec));
    assert_eq!(Some(&1), Array::last(&vec));
    ArrayMut::sort_unstable(&mut vec);
    assert_eq!(Some(&1), Array::first(&vec));
    assert_eq!(Some(&3), Array::last(&vec));
}

/// A deque of the numbers from 1 to 6 whose storage wraps around, so that it
/// comes as two slices.
fn wrapped() -> VecDeque<u32> {
    let mut deque: VecDeque<u32> = VecDeque::with_capacity(8);
    for item in [4, 5, 6] {
        deque.push_back(item);
    }
    for item in [3, 2, 1] {
        deque.push_front(item);
    }
    deque
}

#[test]
fn deque_comes_in_two_slices() {
    let deque = wrapped();
    let (front, back) = deque.as_slices();
    assert!(!front.is_empty());
    assert!(!back.is_empty());
    let items: Vec<u32> = deque.iter().copied().collect();
    assert_eq!(vec![1, 2, 3, 4, 5, 6], items);
}

#[test]
fn deque_get_and_contains() {
    let deque = wrapped();
    assert_eq!(Some(&1), Array::get(&deque, 0));
    assert_eq!(Some(&4), Array::get(&deque, 3));
    assert_eq!(Some(&6), Array::get(&deque, 5));
    assert_eq!(None, Array::get(&deque, 6));
    assert!(Array::contains(&deque, &5));
    assert!(!Array::contains(&deque, &7));
    assert!(!HasLength::is_empty(&deque));
    let empty: VecDeque<u32> = VecDeque::new();
    assert!(HasLength::is_empty(&empty));
    assert_eq!(None, Array::first(&empty));
    assert_eq!(None, Array::last(&empty));
}

#[test]
fn deque_get_mut_and_set() {
    let mut deque = wrapped();
    *ArrayAccess::get_mut(&mut deque, 4).unwrap() = 50;
    assert!(ArrayAccess::get_mut(&mut deque, 6).is_none());
    *ArrayAccess::first_mut(&mut deque).unwrap() = 10;
    *ArrayAccess::last_mut(&mut deque).unwrap() = 60;
    assert_eq!(Some(2), ArrayAccess::set(&mut deque, 1, 20));
    assert_eq!(None, ArrayAccess::set(&mut deque, 6, 70));
    let items: Vec<u32> = deque.iter().copied().collect();
    assert_eq!(vec![10, 20, 3, 4, 50, 60], items);
    let mut empty: VecDeque<u32> = VecDeque::new();
    assert!(ArrayAccess::first_mut(&mut empty).is_none());
    assert!(ArrayAccess::last_mut(&mut empty).is_none());
}

#[test]
fn deque_swap() {
    let mut deque = wrapped();
    ArrayAccess::swap(&mut deque, 0, 5);
    ArrayAccess::swap(&mut deque, 2, 2);
    ArrayAccess::swap(&mut deque, 4, 3);
    let items: Vec<u32> = deque.iter().copied().collect();
    assert_eq!(vec![6, 2, 3, 5, 4, 1], items);
}

#[test]
fn deque_map_pair_in_and_across_slices() {
    let mut deque = wrapped();
    let pairs = [(0, 1), (1, 0), (0, 5), (5, 0), (4, 5), (5, 4), (2, 3), (3, 2)];
    for (index1, index2) in pairs {
        let before: Vec<u32> = deque.iter().copied().collect();
        let seen = deque.map_pair(index1, index2, |a, b| {
            let seen = (*a, *b);
            *a += 100;
            *b += 1000;
            seen
        });
        assert_eq!((before[index1], before[index2]), seen);
        let after: Vec<u32> = deque.iter().copied().collect();
        for index in 0..6 {
            let expected = if index == index1 {
                before[index] + 100
            } else if index == index2 {
                before[index] + 1000
            } else {
                before[index]
            };
            assert_eq!(expected, after[index]);
        }
    }
}

#[test]
fn deque_sort_across_slices() {
    let mut deque: VecDeque<u32> = VecDeque::with_capacity(8);
    for item in [2, 9, 4] {
        deque.push_back(item);
    }
    for item in [7, 1, 8] {
        deque.push_front(item);
    }
    ArrayMut::sort_unstable(&mut deque);
    let items: Vec<u32> = deque.iter().copied().collect();
    assert_eq!(vec![1, 2, 4, 7, 8, 9], items);
}
