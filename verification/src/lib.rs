//! Array operations for containers that cannot hand out a slice.
//!
//! A container that has a length and can be indexed gets, through the trait
//! [`Array`], the searching methods that slices have. One that can also hand out
//! one element, or two at a time, to be changed gets the rest through
//! [`ArrayAccess`] and [`ArrayMut`]: setting, swapping and an unstable sort.
//! Each method has a contract over the sequence of the container's elements.
//!
//! `std::collections::VecDeque` has all four traits.

pub mod array;
pub mod laws;
pub mod order;
pub mod rearrange;
pub mod search;
pub mod sort;
pub mod std_types;

pub use crate::array::{Array, ArrayAccess, ArrayMut, HasLength};
