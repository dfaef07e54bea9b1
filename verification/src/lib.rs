//! Mergeable streaming statistics.
//!
//! An aggregator takes in samples one at a time and answers questions about
//! all the samples it has taken in. Two aggregators of a kind can be merged,
//! and the merged aggregator stands for the samples of both, so that shards
//! of a data set can be gathered apart and combined in any order.
//!
//! Two aggregators are here. [`Frequencies`] counts how often each sample
//! occurs. [`Unsorted`] keeps every sample and puts them in order when asked
//! for a median, quartiles, a mode or the number of distinct samples. As a
//! value, each is the multiset of its samples.
//!
//! A sample is an `i64`. Numbers that are ordered only in part, such as
//! those of IEEE 754, come in through the keys of [`key`], which give their
//! bit patterns one fixed total order. A median or a quartile that falls
//! between two samples is returned as the pair of them, a [`Quantile`], and
//! not as a rounded number.

pub mod ascending;
pub mod commute;
pub mod frequency;
pub mod key;
pub mod laws;
pub mod mode;
mod outside;
pub mod quantile;
pub mod ranking;
pub mod tally;
pub mod unsorted;

pub use commute::{merge_all, Commute};
pub use frequency::{Frequencies, UniqueValues};
pub use key::{bits_from_key, key_from_bits};
pub use mode::{mode_on_sorted, modes_on_sorted};
pub use quantile::{median_on_sorted, quartiles_on_sorted, Quantile};
pub use unsorted::{median, mode, modes, quartiles, Unsorted};
