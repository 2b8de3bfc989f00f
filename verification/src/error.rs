//! The ways in which a counting sort refuses its input.

use vstd::prelude::*;

verus! {

/// Why a counting sort refused its input.
#[derive(Debug, Clone, Copy, PartialEq, Eq)]
pub enum SortError {
    /// The bound is zero although there are keys to sort, so there would be
    /// no bucket to put any of them in.
    InvalidBound,
    /// A key is not below the bound. `index` is the position of the first
    /// such key in the input and `key` is its value.
    KeyOutOfRange { index: usize, key: u32 },
}

/// `index` is the position of the first key that is not below `bound`.
pub open spec fn is_first_out_of_range(keys: Seq<u32>, bound: nat, index: int) -> bool {
    &&& 0 <= index < keys.len()
    &&& keys[index] >= bound
    &&& forall|j: int| 0 <= j < index ==> keys[j] < bound
}

impl SortError {
    /// This error is the one that `keys` and `bound` call for: a zero bound
    /// comes before any single key, and among the keys the first that is
    /// out of range is the one reported.
    pub open spec fn rejects(self, keys: Seq<u32>, bound: nat) -> bool {
        match self {
            SortError::InvalidBound => bound == 0 && keys.len() > 0,
            SortError::KeyOutOfRange { index, key } => {
                &&& bound > 0
                &&& is_first_out_of_range(keys, bound, index as int)
                &&& key == keys[index as int]
            },
        }
    }
}

} // verus!
