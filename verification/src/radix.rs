//! Radix sort on decimal digits, least significant digit first: one stable
//! counting sort per digit position.

use crate::counting::{
    counting_sort_with_payload, keys_below, keys_of, lemma_stable_order_sorts, payloads_of,
    sorted_payloads, stable_order,
};
use crate::digits::{
    decimal_digits, digit_at, digit_from_end, digits, lemma_digit_from_end, lemma_low_part_order,
    lemma_low_part_whole, low_part,
};
use crate::permutation::{
    identity, is_permutation, lemma_identity_is_permutation, lemma_permutation_compose,
    lemma_permute_multiset, permute,
};
use crate::sorted::{is_ascending, lemma_ascending_unique};
use vstd::arithmetic::power::lemma_pow0;
use vstd::prelude::*;

verus! {

/// The positions that a vector of indices holds, as integers.
pub open spec fn positions(order: Seq<usize>) -> Seq<int> {
    Seq::new(order.len(), |i: int| order[i] as int)
}

/// The largest number of decimal digits that an item of `values` has; 0
/// where there is no item.
pub open spec fn max_digit_count(values: Seq<u32>) -> nat
    decreases values.len(),
{
    if values.len() == 0 {
        0
    } else {
        let before = max_digit_count(values.drop_last());
        let last = decimal_digits(values.last() as nat).len();
        if last > before {
            last
        } else {
            before
        }
    }
}

/// Taken in the order `order`, the values ascend by what their digits below
/// `position` amount to.
pub open spec fn ascends_by_low_part(values: Seq<u32>, order: Seq<int>, position: nat) -> bool {
    forall|i: int, j: int|
        0 <= i < j < order.len() ==> low_part(values[order[i]] as nat, position) <= low_part(
            values[order[j]] as nat,
            position,
        )
}

/// The keys of the pass for `position`: for each value, in the order
/// `order`, its digit at that position.
pub open spec fn pass_keys(values: Seq<u32>, order: Seq<int>, position: nat) -> Seq<u32> {
    Seq::new(
        order.len(),
        |k: int| digit_from_end(decimal_digits(values[order[k]] as nat), position),
    )
}

/// The same keys, read from a table that holds the digit sequence of each
/// value: for each position in `order`, the digit at `position` of its
/// table entry.
pub open spec fn table_keys(table: Seq<Vec<u32>>, order: Seq<usize>, position: nat) -> Seq<u32> {
    Seq::new(order.len(), |k: int| digit_from_end(table[order[k] as int]@, position))
}

/// The order after the pass for `position`: the order before it, stably
/// sorted by the digit at that position.
pub open spec fn pass_order(values: Seq<u32>, order: Seq<int>, position: nat) -> Seq<int> {
    permute(stable_order(pass_keys(values, order, position), 10), order)
}

/// No item has more digits than `max_digit_count` says.
pub proof fn lemma_max_digit_count(values: Seq<u32>, i: int)
    requires
        0 <= i < values.len(),
    ensures
        decimal_digits(values[i] as nat).len() <= max_digit_count(values),
    decreases values.len(),
{
    if i < values.len() - 1 {
        lemma_max_digit_count(values.drop_last(), i);
    }
}

/// One pass extends the sorted part by one digit: where the values ascend
/// by their digits below `position`, a stable sort by the digit at
/// `position` makes them ascend by their digits up to and including it.
pub proof fn lemma_pass_extends_order(values: Seq<u32>, order: Seq<int>, position: nat)
    requires
        is_permutation(order, values.len()),
        ascends_by_low_part(values, order, position),
    ensures
        keys_below(pass_keys(values, order, position), 10),
        is_permutation(pass_order(values, order, position), values.len()),
        ascends_by_low_part(values, pass_order(values, order, position), position + 1),
{
    let keys = pass_keys(values, order, position);
    let so = stable_order(keys, 10);
    let next = pass_order(values, order, position);
    assert forall|k: int| 0 <= k < keys.len() implies keys[k] < 10 by {
        lemma_digit_from_end(values[order[k]] as nat, position);
    }
    lemma_stable_order_sorts(keys, 10);
    lemma_permutation_compose(order, so, values.len());
    assert forall|i: int, j: int| 0 <= i < j < next.len() implies low_part(
        values[next[i]] as nat,
        position + 1,
    ) <= low_part(values[next[j]] as nat, position + 1) by {
        let a = values[order[so[i]]] as nat;
        let b = values[order[so[j]]] as nat;
        assert(so.contains(so[i]) && so.contains(so[j]));
        assert(keys[so[i]] < keys[so[j]] || (keys[so[i]] == keys[so[j]] && so[i] < so[j]));
        lemma_digit_from_end(a, position);
        lemma_digit_from_end(b, position);
        lemma_low_part_order(a, b, position);
    }
}

/// The digit sequence of every item, and the length of the longest.
fn annotate(list: &[u32]) -> (annotated: (Vec<Vec<u32>>, usize))
    ensures
        annotated.0@.len() == list@.len(),
        forall|i: int|
            0 <= i < list@.len() ==> (#[trigger] annotated.0@[i])@ == decimal_digits(
                list@[i] as nat,
            ),
        annotated.1 == max_digit_count(list@),
{
    let n: usize = list.len();
    let mut table: Vec<Vec<u32>> = Vec::new();
    let mut width: usize = 0;
    let mut i: usize = 0;
    while i < n
        invariant
            i <= n,
            n == list@.len(),
            table@.len() == i,
            forall|j: int|
                0 <= j < i ==> (#[trigger] table@[j])@ == decimal_digits(list@[j] as nat),
            width == max_digit_count(list@.take(i as int)),
        decreases n - i,
    {
        let d: Vec<u32> = digits(list[i]);
        assert(list@.take(i as int + 1).drop_last() =~= list@.take(i as int));
        if d.len() > width {
            width = d.len();
        }
        table.push(d);
        i += 1;
    }
    assert(list@.take(n as int) =~= list@);
    (table, width)
}

/// The positions `0, 1, .., n - 1`.
fn first_positions(n: usize) -> (order: Vec<usize>)
    ensures
        positions(order@) == identity(n as nat),
{
    let mut order: Vec<usize> = Vec::new();
    let mut i: usize = 0;
    while i < n
        invariant
            i <= n,
            order@.len() == i,
            forall|j: int| 0 <= j < i ==> order@[j] == j,
        decreases n - i,
    {
        order.push(i);
        i += 1;
    }
    assert(positions(order@) =~= identity(n as nat));
    order
}

/// One pass: sorts the positions in `order` stably by the digit that the
/// table holds for each of them at `position`.
fn digit_pass(table: &Vec<Vec<u32>>, order: &Vec<usize>, position: usize) -> (next: Vec<usize>)
    requires
        forall|k: int| 0 <= k < order@.len() ==> order@[k] < table@.len(),
        keys_below(table_keys(table@, order@, position as nat), 10),
    ensures
        positions(next@) == permute(
            stable_order(table_keys(table@, order@, position as nat), 10),
            positions(order@),
        ),
{
    let n: usize = order.len();
    let ghost keys = table_keys(table@, order@, position as nat);
    let mut keyed: Vec<(u32, usize)> = Vec::new();
    let mut k: usize = 0;
    while k < n
        invariant
            k <= n,
            n == order@.len(),
            forall|m: int| 0 <= m < order@.len() ==> order@[m] < table@.len(),
            keys == table_keys(table@, order@, position as nat),
            keyed@.len() == k,
            forall|m: int| 0 <= m < k ==> keyed@[m] == (keys[m], order@[m]),
        decreases n - k,
    {
        let at: usize = order[k];
        let digit: u32 = digit_at(table[at].as_slice(), position);
        keyed.push((digit, at));
        k += 1;
    }
    assert(keys_of(keyed@) =~= keys);
    assert(payloads_of(keyed@) =~= order@);
    let next: Vec<usize> = counting_sort_with_payload(keyed.as_slice(), 10).unwrap();
    proof {
        let so = stable_order(keys, 10);
        lemma_stable_order_sorts(keys, 10);
        assert forall|m: int| 0 <= m < so.len() implies 0 <= #[trigger] so[m] < n by {
            assert(so.contains(so[m]));
        }
        assert(next@ =~= sorted_payloads(keyed@, 10));
        assert(positions(next@) =~= permute(so, positions(order@)));
    }
    next
}

/// Sorts numbers into ascending order by their decimal digits, without ever
/// comparing two of them.
///
/// Each number is annotated once with its digit sequence. Then, for each
/// digit position from the least significant up to the length of the
/// longest sequence, the numbers are sorted stably by their digit at that
/// position, shorter numbers counting as padded with zeros on the left. The
/// empty input takes no pass.
pub fn radix_sort(list: &[u32]) -> (sorted: Vec<u32>)
    ensures
        is_ascending(sorted@),
        sorted@.to_multiset() == list@.to_multiset(),
        is_ascending(list@) ==> sorted@ == list@,
        list@.len() <= 1 ==> sorted@ == list@,
{
    let n: usize = list.len();
    let (table, width) = annotate(list);
    let mut order: Vec<usize> = first_positions(n);
    let mut position: usize = 0;
    proof {
        lemma_identity_is_permutation(list@);
        assert forall|i: int, j: int| 0 <= i < j < n implies low_part(list@[i] as nat, 0)
            <= low_part(list@[j] as nat, 0) by {
            lemma_pow0(10);
        }
    }
    while position < width
        invariant
            position <= width,
            n == list@.len(),
            table@.len() == list@.len(),
            forall|i: int|
                0 <= i < list@.len() ==> (#[trigger] table@[i])@ == decimal_digits(
                    list@[i] as nat,
                ),
            is_permutation(positions(order@), list@.len()),
            ascends_by_low_part(list@, positions(order@), position as nat),
        decreases width - position,
    {
        proof {
            lemma_pass_extends_order(list@, positions(order@), position as nat);
            assert forall|k: int| 0 <= k < order@.len() implies order@[k] < table@.len() by {
                assert(positions(order@).contains(positions(order@)[k]));
            }
            assert(table_keys(table@, order@, position as nat) =~= pass_keys(
                list@,
                positions(order@),
                position as nat,
            ));
        }
        order = digit_pass(&table, &order, position);
        position += 1;
    }
    let ghost arranged = positions(order@);
    let mut sorted: Vec<u32> = Vec::new();
    let mut k: usize = 0;
    while k < n
        invariant
            k <= n,
            n == list@.len(),
            arranged == positions(order@),
            is_permutation(arranged, list@.len()),
            sorted@.len() == k,
            forall|m: int| 0 <= m < k ==> sorted@[m] == list@[arranged[m]],
        decreases n - k,
    {
        assert(arranged.contains(arranged[k as int]));
        sorted.push(list[order[k]]);
        k += 1;
    }
    proof {
        assert(sorted@ =~= permute(arranged, list@));
        lemma_permute_multiset(arranged, list@);
        assert forall|i: int, j: int| 0 <= i <= j < sorted@.len() implies sorted@[i]
            <= sorted@[j] by {
            assert(arranged.contains(arranged[i]) && arranged.contains(arranged[j]));
            lemma_max_digit_count(list@, arranged[i]);
            lemma_max_digit_count(list@, arranged[j]);
            lemma_low_part_whole(list@[arranged[i]] as nat, width as nat);
            lemma_low_part_whole(list@[arranged[j]] as nat, width as nat);
        }
        if is_ascending(list@) {
            lemma_ascending_unique(sorted@, list@);
        }
    }
    sorted
}

} // verus!
