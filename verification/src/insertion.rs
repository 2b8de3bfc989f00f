//! Insertion sort, the comparison baseline.

use crate::sorted::{is_ascending, lemma_ascending_unique};
use vstd::prelude::*;
use vstd::seq_lib::{to_multiset_contains, to_multiset_update};
use vstd::slice::slice_to_vec;

verus! {

/// Exchanging two items of a sequence keeps every item, with its
/// multiplicity.
pub proof fn lemma_exchange_multiset(s: Seq<u32>, i: int, j: int)
    requires
        0 <= i < s.len(),
        0 <= j < s.len(),
    ensures
        s.update(i, s[j]).update(j, s[i]).to_multiset() == s.to_multiset(),
{
    let half = s.update(i, s[j]);
    to_multiset_update(s, i, s[j]);
    to_multiset_update(half, j, s[i]);
    assert(half[j] == s[j]);
    assert(s.to_multiset().insert(s[j]).remove(s[i]).insert(s[i]).remove(s[j])
        =~= s.to_multiset()) by {
        to_multiset_contains(s, s[i]);
        to_multiset_contains(s, s[j]);
        assert(s.contains(s[i]));
        assert(s.contains(s[j]));
    }
}

/// Sorts numbers into ascending order by insertion: each item in turn moves
/// towards the front, changing places with its neighbour for as long as that
/// neighbour is larger. An item never passes one that is equal to it.
pub fn insertion_sort(list: &[u32]) -> (sorted: Vec<u32>)
    ensures
        is_ascending(sorted@),
        sorted@.to_multiset() == list@.to_multiset(),
        is_ascending(list@) ==> sorted@ == list@,
        list@.len() <= 1 ==> sorted@ == list@,
{
    let n: usize = list.len();
    let mut sorted: Vec<u32> = slice_to_vec(list);
    let mut i: usize = 1;
    while i < n
        invariant
            1 <= i,
            sorted@.len() == n,
            n == list@.len(),
            sorted@.to_multiset() == list@.to_multiset(),
            forall|a: int, b: int| 0 <= a <= b < i && b < n ==> sorted@[a] <= sorted@[b],
        decreases n - i,
    {
        let current: u32 = sorted[i];
        let mut j: usize = i;
        while j > 0 && sorted[j - 1] > current
            invariant
                j <= i < n,
                sorted@.len() == n,
                sorted@[j as int] == current,
                sorted@.to_multiset() == list@.to_multiset(),
                forall|a: int, b: int|
                    0 <= a <= b <= i && a != j && b != j ==> sorted@[a] <= sorted@[b],
                forall|b: int| j < b <= i ==> current < sorted@[b],
            decreases j,
        {
            proof {
                lemma_exchange_multiset(sorted@, j as int, j as int - 1);
            }
            let neighbour: u32 = sorted[j - 1];
            sorted[j] = neighbour;
            sorted[j - 1] = current;
            j -= 1;
        }
        i += 1;
    }
    proof {
        if is_ascending(list@) {
            lemma_ascending_unique(sorted@, list@);
        }
    }
    sorted
}

} // verus!
