use array_ops::sort::{index_in_range, quicksort};
use array_ops::{Array, ArrayAccess, ArrayMut, HasLength};
use rand_core::{RngCore, SeedableRng};
use std::cell::Cell;
use std::cmp::Ordering;
use std::collections::VecDeque;
use std::ops::{Index, IndexMut};

fn is_sorted_deque(vec: &VecDeque<u64>) -> bool {
    let mut index = 1;
    while index < vec.len() {
        if vec[index - 1] > vec[index] {
            return false;
        }
        index += 1;
    }
    true
}

#[test]
fn test_quicksort() {
    let mut rng = rand_xoshiro::Xoshiro256PlusPlus::seed_from_u64(1337);
    let mut vec: VecDeque<_> = std::iter::from_fn(move || Some(rng.next_u64()))
        .take(16384)
        .collect();
    let last = vec.len() - 1;
    quicksort(&mut vec, 0, last, &Ord::cmp);
    assert!(is_sorted_deque(&vec));
    assert!(Array::is_sorted(&vec));
}

/// An array that counts the exchanges of two different positions.
struct Counted {
    items: Vec<u32>,
    exchanges: usize,
}

impl Counted {
    fn of(items: Vec<u32>) -> Self {
        Counted { items, exchanges: 0 }
    }
}

impl HasLength for Counted {
    fn len(&self) -> usize {
        self.items.len()
    }
}

impl Index<usize> for Counted {
    type Output = u32;
    fn index(&self, index: usize) -> &u32 {
        &self.items[index]
    }
}

impl IndexMut<usize> for Counted {
    fn index_mut(&mut self, index: usize) -> &mut u32 {
        &mut self.items[index]
    }
}

impl Array for Counted {}

impl ArrayAccess for Counted {
    fn get_mut(&mut self, index: usize) -> Option<&mut u32> {
        self.items.get_mut(index)
    }

    fn swap(&mut self, index1: usize, index2: usize) {
        if index1 != index2 {
            self.exchanges += 1;
        }
        self.items.swap(index1, index2);
    }

    fn map_pair<F, B>(&mut self, index1: usize, index2: usize, mut f: F) -> B
    where
        F: FnMut(&mut u32, &mut u32) -> B,
    {
        assert!(index1 != index2);
        if index1 < index2 {
            let (low, high) = self.items.split_at_mut(index2);
            f(&mut low[index1], &mut high[0])
        } else {
            let (low, high) = self.items.split_at_mut(index1);
            f(&mut high[0], &mut low[index2])
        }
    }
}

impl ArrayMut for Counted {}

fn sorted_copy(items: &[u32]) -> Vec<u32> {
    let mut copy = items.to_vec();
    copy.sort();
    copy
}

#[test]
fn sort_keeps_and_orders_elements() {
    let inputs: Vec<Vec<u32>> = vec![
        vec![],
        vec![7],
        vec![2, 1],
        vec![1, 2],
        vec![0, 0, 0, 0],
        vec![1, 0, 1, 1, 1],
        vec![1, 0, 1, 1, 1, 1],
        vec![3, 1, 3, 3, 7],
        vec![9, 8, 7, 6, 5, 4, 3, 2, 1, 0],
        vec![4, 4, 1, 4, 0, 4, 4, 2, 4, 4, 4, 3],
        vec![1, 0, 0, 1, 1, 1, 1],
    ];
    for input in inputs {
        let mut deque: VecDeque<u32> = input.clone().into();
        deque.sort_unstable();
        let output: Vec<u32> = deque.into_iter().collect();
        assert_eq!(sorted_copy(&input), output);
    }
}

#[test]
fn sort_many_duplicates() {
    let mut rng = rand_xoshiro::Xoshiro256PlusPlus::seed_from_u64(7);
    let input: Vec<u32> = (0..5000).map(|_| (rng.next_u64() % 13) as u32).collect();
    let mut deque: VecDeque<u32> = input.clone().into();
    deque.sort_unstable();
    let output: Vec<u32> = deque.into_iter().collect();
    assert_eq!(sorted_copy(&input), output);
}

#[test]
fn sort_example_with_three_equal() {
    let mut deque: VecDeque<u32> = vec![5, 3, 3, 1, 3, 9].into();
    deque.sort_unstable_by(|a, b| a.cmp(b));
    let output: Vec<u32> = deque.into_iter().collect();
    assert_eq!(vec![1, 3, 3, 3, 5, 9], output);
}

#[test]
fn sort_is_idempotent() {
    let mut deque: VecDeque<u32> = vec![8, 2, 2, 9, 1, 5, 5, 5, 0].into();
    deque.sort_unstable();
    let once = deque.clone();
    deque.sort_unstable();
    assert_eq!(once, deque);
}

#[test]
fn sort_is_deterministic() {
    let input: Vec<(u32, char)> = vec![
        (2, 'a'),
        (1, 'b'),
        (2, 'c'),
        (1, 'd'),
        (3, 'e'),
        (2, 'f'),
        (1, 'g'),
        (3, 'h'),
    ];
    let mut first: VecDeque<(u32, char)> = input.clone().into();
    let mut second: VecDeque<(u32, char)> = input.clone().into();
    first.sort_unstable_by_key(|item| item.0);
    second.sort_unstable_by_key(|item| item.0);
    assert_eq!(first, second);
    let keys: Vec<u32> = first.iter().map(|item| item.0).collect();
    assert_eq!(vec![1, 1, 1, 2, 2, 2, 3, 3], keys);
}

#[test]
fn sort_of_equal_elements_is_linear() {
    let count_for = |n: usize| -> (usize, usize) {
        let asked = Cell::new(0usize);
        let mut array = Counted::of(vec![4; n]);
        array.sort_unstable_by(|a, b| {
            asked.set(asked.get() + 1);
            a.cmp(b)
        });
        assert_eq!(vec![4; n], array.items);
        (asked.get(), array.exchanges)
    };
    let (asked_small, exchanged_small) = count_for(10_000);
    let (asked_large, exchanged_large) = count_for(20_000);
    assert!(asked_small <= 4 * 10_000);
    assert!(asked_large <= 4 * 20_000);
    assert!(asked_large <= 3 * asked_small);
    assert!(exchanged_small <= 2 * 10_000);
    assert!(exchanged_large <= 2 * 20_000);
}

#[test]
fn sort_of_short_arrays() {
    let mut empty = Counted::of(vec![]);
    empty.sort_unstable();
    assert_eq!(Vec::<u32>::new(), empty.items);
    assert_eq!(0, empty.exchanges);

    let mut single = Counted::of(vec![5]);
    single.sort_unstable();
    assert_eq!(vec![5], single.items);
    assert_eq!(0, single.exchanges);

    let mut ordered = Counted::of(vec![1, 2]);
    ordered.sort_unstable();
    assert_eq!(vec![1, 2], ordered.items);
    assert!(ordered.exchanges <= 1);

    let mut reversed = Counted::of(vec![2, 1]);
    reversed.sort_unstable();
    assert_eq!(vec![1, 2], reversed.items);
    assert!(reversed.exchanges <= 1);
}

#[test]
fn sort_with_a_comparator_that_contradicts_itself() {
    let turn = Cell::new(0u32);
    let mut deque: VecDeque<u32> = (0..200).rev().collect();
    deque.sort_unstable_by(|_, _| {
        turn.set(turn.get() + 1);
        match turn.get() % 3 {
            0 => Ordering::Less,
            1 => Ordering::Equal,
            _ => Ordering::Greater,
        }
    });
    let mut output: Vec<u32> = deque.into_iter().collect();
    output.sort();
    let expected: Vec<u32> = (0..200).collect();
    assert_eq!(expected, output);
}

#[test]
fn quicksort_of_a_range_leaves_the_rest() {
    let mut deque: VecDeque<u32> = vec![9, 8, 7, 6, 5, 4, 3, 2, 1].into();
    quicksort(&mut deque, 2, 6, |a: &u32, b: &u32| a.cmp(b));
    let output: Vec<u32> = deque.into_iter().collect();
    assert_eq!(vec![9, 8, 3, 4, 5, 6, 7, 2, 1], output);

    let mut same: VecDeque<u32> = vec![3, 2, 1].into();
    quicksort(&mut same, 1, 1, |a: &u32, b: &u32| a.cmp(b));
    quicksort(&mut same, 2, 0, |a: &u32, b: &u32| a.cmp(b));
    let output: Vec<u32> = same.into_iter().collect();
    assert_eq!(vec![3, 2, 1], output);
}

#[test]
fn sort_by_key_in_descending_order() {
    let mut deque: VecDeque<i32> = vec![3, -1, 4, -1, 5, -9, 2, 6].into();
    deque.sort_unstable_by_key(|item| -item);
    let output: Vec<i32> = deque.into_iter().collect();
    assert_eq!(vec![6, 5, 4, 3, 2, -1, -1, -9], output);
}

#[test]
fn index_in_range_values() {
    assert_eq!(5, index_in_range(10, 3, 7));
    assert_eq!(3, index_in_range(0, 3, 7));
    assert_eq!(6, index_in_range(7, 3, 7));
    assert_eq!(0, index_in_range(u64::MAX, 0, 1));
    assert_eq!(4, index_in_range(12, 0, 8));
}
