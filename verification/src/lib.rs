//! A dynamic array based on a two-level rotated array.
//!
//! The container keeps O(1) random access while supporting insertion and
//! removal at arbitrary logical positions in amortized O(√n) time, by
//! partitioning one flat backing store into subarrays of sizes 1, 2, 3, …
//! whose rotation state is tracked in a small index table.

mod tri;
mod rvec;
mod insert;
mod remove;
mod ops;
mod iter;
mod laws;

pub use iter::{IntoIter, Iter, IterMut};
pub use laws::{lemma_empty_table, lemma_insert_at_len_is_push, lemma_insert_then_remove,
    lemma_pop_n_of_pushed, lemma_push_pop_lifo, lemma_round_trip, pop_n};
pub use ops::cmp_le;
pub use rvec::RotatedVec;
