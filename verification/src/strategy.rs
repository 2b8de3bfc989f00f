//! The choice of a sorting algorithm, as a value.

use crate::counting::{counting_sort, keys_below};
use crate::error::SortError;
use crate::insertion::insertion_sort;
use crate::radix::radix_sort;
use crate::sorted::is_ascending;
use vstd::prelude::*;

verus! {

/// Which algorithm sorts a list.
#[derive(Debug, Clone, Copy, PartialEq, Eq)]
pub enum Strategy {
    /// Insertion sort.
    Insertion,
    /// Counting sort, for keys below `max_key_bound`.
    Counting { max_key_bound: usize },
    /// Radix sort on decimal digits.
    Radix,
}

impl Strategy {
    /// The name of the algorithm, as a sequence of characters.
    pub open spec fn name_chars(self) -> Seq<char> {
        match self {
            Strategy::Insertion => "insertion"@,
            Strategy::Counting { .. } => "counting"@,
            Strategy::Radix => "radix"@,
        }
    }

    /// The algorithm takes these keys: counting sort wants every key below
    /// its bound, the others take any list.
    pub open spec fn accepts(self, keys: Seq<u32>) -> bool {
        match self {
            Strategy::Counting { max_key_bound } => keys_below(keys, max_key_bound as nat),
            _ => true,
        }
    }

    /// The error that is due where the algorithm does not take the keys.
    pub open spec fn refuses_with(self, keys: Seq<u32>, error: SortError) -> bool {
        match self {
            Strategy::Counting { max_key_bound } => error.rejects(keys, max_key_bound as nat),
            _ => false,
        }
    }

    /// The name of the algorithm in lower case.
    pub fn name(&self) -> (name: &'static str)
        ensures
            name@ == self.name_chars(),
    {
        match self {
            Strategy::Insertion => "insertion",
            Strategy::Counting { .. } => "counting",
            Strategy::Radix => "radix",
        }
    }

    /// Sorts `list` into ascending order with the chosen algorithm. Only
    /// counting sort can refuse a list.
    pub fn sort(&self, list: &[u32]) -> (result: Result<Vec<u32>, SortError>)
        ensures
            result is Ok <==> self.accepts(list@),
            result matches Ok(sorted) ==> is_ascending(sorted@) && sorted@.to_multiset()
                == list@.to_multiset(),
            result matches Ok(sorted) ==> (is_ascending(list@) ==> sorted@ == list@),
            result matches Err(e) ==> self.refuses_with(list@, e),
    {
        match self {
            Strategy::Insertion => Ok(insertion_sort(list)),
            Strategy::Counting { max_key_bound } => counting_sort(list, *max_key_bound),
            Strategy::Radix => Ok(radix_sort(list)),
        }
    }
}

} // verus!
