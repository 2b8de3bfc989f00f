//! Stable integer sorting: counting sort that carries a payload, decimal
//! radix sort built on it, and insertion sort as a comparison baseline.
//!
//! Every sort returns a new vector and leaves its input untouched. The
//! contracts are stated over sequences, multisets and index permutations.

pub mod counting;
pub mod digits;
pub mod error;
pub mod insertion;
pub mod permutation;
pub mod radix;
pub mod random;
pub mod sorted;
pub mod strategy;
