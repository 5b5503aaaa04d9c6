use array_ops::{Array, ArrayAccess, ArrayMut, HasLength};
use std::iter::FromIterator;
use std::ops::{Index, IndexMut};

#[derive(Clone, Debug, PartialEq, Eq, PartialOrd, Ord)]
struct TestVec<A>(Vec<A>);

impl<A> HasLength for TestVec<A> {
    fn len(&self) -> usize {
        self.0.len()
    }
}

impl<A> Index<usize> for TestVec<A> {
    type Output = A;
    fn index(&self, index: usize) -> &A {
        &self.0[index]
    }
}

impl<A> IndexMut<usize> for TestVec<A> {
    fn index_mut(&mut self, index: usize) -> &mut A {
        &mut self.0[index]
    }
}

impl<A> Array for TestVec<A> {}

impl<A> ArrayAccess for TestVec<A> {
    fn get_mut(&mut self, index: usize) -> Option<&mut A> {
        self.0.get_mut(index)
    }

    fn map_pair<F, B>(&mut self, index1: usize, index2: usize, mut f: F) -> B
    where
        F: FnMut(&mut A, &mut A) -> B,
    {
        if index1 == index2 {
            panic!("ArrayMut::map_pair: indices cannot be equal!");
        }
        if index1 < index2 {
            let (low, high) = self.0.split_at_mut(index2);
            f(&mut low[index1], &mut high[0])
        } else {
            let (low, high) = self.0.split_at_mut(index1);
            f(&mut high[0], &mut low[index2])
        }
    }
}

impl<A> ArrayMut for TestVec<A> {}

impl<A> FromIterator<A> for TestVec<A> {
    fn from_iter<I>(iter: I) -> Self
    where
        I: IntoIterator<Item = A>,
    {
        Self(Vec::from_iter(iter))
    }
}

impl<A> From<Vec<A>> for TestVec<A> {
    fn from(vec: Vec<A>) -> Self {
        Self(vec)
    }
}

#[test]
fn ops() {
    let mut vec = TestVec::from_iter(1..=3);
    assert_eq!(3, vec.len());
    assert_eq!(Some(&1), vec.first());
    assert_eq!(Some(&2), vec.get(1));
    assert_eq!(Some(&3), vec.last());
    *vec.first_mut().unwrap() = 3;
    *vec.last_mut().unwrap() = 1;
    *vec.get_mut(1).unwrap() = 5;
    vec.swap(0, 1);
    assert_eq!(TestVec::from(vec![5, 3, 1]), vec);
    assert!(!vec.is_sorted());
    vec.sort_unstable();
    assert_eq!(TestVec::from(vec![1, 3, 5]), vec);
    assert!(vec.is_sorted());
    assert_eq!(Ok(1), vec.binary_search(&3));
    assert_eq!(Err(1), vec.binary_search(&2));
    assert_eq!(Err(0), vec.binary_search(&0));
    assert_eq!(Err(3), vec.binary_search(&1337));
    assert!(vec.contains(&1));
    assert!(!vec.contains(&2));
    assert!(vec.contains(&3));
    assert!(!vec.contains(&4));
    assert!(vec.contains(&5));
    assert!(vec.starts_with(&[1, 3]));
    assert!(!vec.starts_with(&[1, 2, 3]));
    assert!(vec.ends_with(&[3, 5]));
    assert!(!vec.ends_with(&[3, 4, 5]));
}

#[test]
fn example_of_a_newtyped_vec() {
    let mut my_vec = TestVec::from(vec![3, 1, 3, 3, 7]);
    assert!(my_vec.starts_with(&[3, 1, 3]));
    my_vec.sort_unstable();
    let expected = TestVec::from(vec![1, 3, 3, 3, 7]);
    assert_eq!(expected, my_vec);
}

#[test]
fn binary_search_by_finds_the_last_equal() {
    let vec = TestVec::from(vec![1, 2, 2, 2, 5, 8]);
    assert_eq!(Ok(3), vec.binary_search(&2));
    assert_eq!(Ok(3), vec.binary_search_by(|value| value.cmp(&2)));
    assert_eq!(Ok(5), vec.binary_search_by(|value| value.cmp(&8)));
    assert_eq!(Err(4), vec.binary_search_by(|value| value.cmp(&3)));
    assert_eq!(Err(6), vec.binary_search_by(|value| value.cmp(&9)));
    assert_eq!(Err(0), vec.binary_search_by(|value| value.cmp(&0)));
    let empty: TestVec<i32> = TestVec::from(vec![]);
    assert_eq!(Err(0), empty.binary_search(&1));
    assert_eq!(Err(0), empty.binary_search_by(|value| value.cmp(&1)));
}

#[test]
fn binary_search_by_key_looks_at_the_key() {
    let vec = TestVec::from(vec![(1, 'a'), (3, 'b'), (4, 'c'), (9, 'd')]);
    assert_eq!(Ok(2), vec.binary_search_by_key(&4, |item| item.0));
    assert_eq!(Err(1), vec.binary_search_by_key(&2, |item| item.0));
    assert_eq!(Err(4), vec.binary_search_by_key(&10, |item| item.0));
}

#[test]
fn is_sorted_by_and_by_key() {
    let vec = TestVec::from(vec![5, 3, 3, 1]);
    assert!(!vec.is_sorted());
    assert!(vec.is_sorted_by(|l, r| r.partial_cmp(l)));
    assert!(vec.is_sorted_by_key(|item| -item));
    assert!(!vec.is_sorted_by_key(|item| *item));
    assert!(vec.is_sorted_by(|_, _| None));
    let short = TestVec::from(vec![1]);
    assert!(short.is_sorted());
    let empty: TestVec<i32> = TestVec::from(vec![]);
    assert!(empty.is_sorted());
}

#[test]
fn starts_and_ends_with_edges() {
    let vec = TestVec::from(vec![1, 3, 5]);
    assert!(vec.starts_with(&[]));
    assert!(vec.ends_with(&[]));
    assert!(vec.starts_with(&[1, 3, 5]));
    assert!(vec.ends_with(&[1, 3, 5]));
    assert!(!vec.starts_with(&[1, 3, 5, 7]));
    assert!(!vec.ends_with(&[0, 1, 3, 5]));
    assert!(!vec.starts_with(&[3]));
    assert!(!vec.ends_with(&[3]));
    assert!(vec.ends_with(&[5]));
}

#[test]
fn get_set_and_swap_on_a_vec() {
    let mut vec = TestVec::from(vec![1, 2, 3]);
    assert_eq!(None, vec.get(3));
    assert!(vec.get_mut(3).is_none());
    assert_eq!(Some(2), vec.set(1, 20));
    assert_eq!(None, vec.set(3, 40));
    vec.swap(0, 2);
    vec.swap(1, 1);
    assert_eq!(TestVec::from(vec![3, 20, 1]), vec);
    let taken = vec.map_pair(2, 0, |a, b| {
        std::mem::swap(a, b);
        *a + *b
    });
    assert_eq!(4, taken);
    assert_eq!(TestVec::from(vec![1, 20, 3]), vec);
    assert!(!vec.is_empty());
    let empty: TestVec<i32> = TestVec::from(vec![]);
    assert!(empty.is_empty());
    assert_eq!(None, empty.first());
    assert_eq!(None, empty.last());
}

#[test]
fn sort_by_a_comparator() {
    let mut vec = TestVec::from(vec![4, 1, 3, 1, 5, 9, 2, 6]);
    vec.sort_unstable_by(|l, r| r.cmp(l));
    assert_eq!(TestVec::from(vec![9, 6, 5, 4, 3, 2, 1, 1]), vec);
    vec.sort_unstable_by_key(|item| *item);
    assert_eq!(TestVec::from(vec![1, 1, 2, 3, 4, 5, 6, 9]), vec);
}
