//! A doubly-linked list whose nodes form a ring around a sentinel.
//!
//! The nodes of a [`List`] live in an arena and refer to their neighbours by
//! slot. Slot `0` is the sentinel: it carries no element, is always present,
//! and closes the ring, so that the first element follows it and the last
//! element precedes it. A list of length `n` has `n + 1` cursor positions
//! `0, 1, ..., n`, the last of which is the sentinel.
//!
//! # What the contracts speak of
//!
//! - The view `list@` of a list is the sequence of its elements from front
//!   to back. Every operation says what it returns and how it changes the
//!   view.
//! - `wf()` says that a list, a cursor or an iterator is well formed. Every
//!   value that the library hands out is, and every operation keeps it so.
//! - A cursor has a `position()` and reads or changes the list `list()`. A
//!   cursor that changes the list borrows it: once the cursor is no longer
//!   used, `lemma_released` says that the list is what the cursor has made
//!   of it. The iterators and drains that borrow a list have the same
//!   lemma.
//! - A sort is specified in [`list::order`]: the result is a rearrangement
//!   of the input, whatever the comparison answers, and a stable sort of it
//!   for every strict weak order that the comparison decides.
//!
//! # Lemmas
//!
//! - [`list::iterator::lemma_round_trip`]: a list yields what it was made
//!   of, from the front as it is and from the back reversed.
//! - [`list::lemma_split_splice_inverse`]: splicing undoes splitting.
//! - [`list::order::lemma_stable_sort_of_sorted`]: a stable sort leaves a
//!   sorted sequence as it is.
//! - [`list::order::lemma_stable_sort_unique`]: a stable sort has one
//!   result.
use vstd::prelude::*;

pub mod list;

pub use list::iterator::{IntoIter, Iter, IterMut};
pub use list::List;
