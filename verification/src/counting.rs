//! Counting sort with a payload: a stable bucket sort of `(key, payload)`
//! pairs whose keys lie below a bound.

use crate::error::SortError;
use crate::permutation::{
    identity, is_permutation, lemma_distinct_positions_len, lemma_identity_is_permutation,
    lemma_permute_multiset, permute,
};
use crate::sorted::{is_ascending, lemma_ascending_unique};
use vstd::prelude::*;

verus! {

/// The keys of a sequence of `(key, payload)` pairs.
pub open spec fn keys_of<T>(elements: Seq<(u32, T)>) -> Seq<u32> {
    Seq::new(elements.len(), |i: int| elements[i].0)
}

/// The payloads of a sequence of `(key, payload)` pairs.
pub open spec fn payloads_of<T>(elements: Seq<(u32, T)>) -> Seq<T> {
    Seq::new(elements.len(), |i: int| elements[i].1)
}

/// Every key is below `bound`.
pub open spec fn keys_below(keys: Seq<u32>, bound: nat) -> bool {
    forall|i: int| 0 <= i < keys.len() ==> keys[i] < bound
}

/// The positions at which `keys` holds `key`, in ascending order: what the
/// bucket of `key` receives, as positions of the input.
pub open spec fn positions_of(keys: Seq<u32>, key: int) -> Seq<int>
    decreases keys.len(),
{
    if keys.len() == 0 {
        Seq::empty()
    } else {
        let before = positions_of(keys.drop_last(), key);
        if keys.last() == key {
            before.push(keys.len() - 1)
        } else {
            before
        }
    }
}

/// The buckets of the keys `0, 1, .., bound - 1`, one after the other: the
/// order in which a counting sort with that bound hands the input back.
pub open spec fn stable_order(keys: Seq<u32>, bound: nat) -> Seq<int>
    decreases bound,
{
    if bound == 0 {
        Seq::empty()
    } else {
        stable_order(keys, (bound - 1) as nat) + positions_of(keys, bound - 1)
    }
}

/// `p` arranges the positions of `keys` by ascending key, and positions with
/// the same key by ascending position.
pub open spec fn is_stable_sorting(p: Seq<int>, keys: Seq<u32>) -> bool {
    &&& is_permutation(p, keys.len())
    &&& forall|i: int, j: int|
        0 <= i < j < p.len() ==> keys[p[i]] < keys[p[j]] || (keys[p[i]] == keys[p[j]] && p[i]
            < p[j])
}

/// The payloads in the order a counting sort with `bound` returns them.
pub open spec fn sorted_payloads<T>(elements: Seq<(u32, T)>, bound: nat) -> Seq<T> {
    permute(stable_order(keys_of(elements), bound), payloads_of(elements))
}

/// `copy` is as long as `source`, and each of its items is a clone of the
/// item of `source` at the same position.
pub open spec fn is_clone_of<T: Clone>(copy: Seq<T>, source: Seq<T>) -> bool {
    &&& copy.len() == source.len()
    &&& forall|i: int| 0 <= i < source.len() ==> cloned(source[i], #[trigger] copy[i])
}

/// A bucket holds positions of its own key only, in ascending order, and
/// misses none.
pub proof fn lemma_positions_of(keys: Seq<u32>, key: int)
    ensures
        forall|m: int|
            0 <= m < positions_of(keys, key).len() ==> {
                &&& 0 <= #[trigger] positions_of(keys, key)[m] < keys.len()
                &&& keys[positions_of(keys, key)[m]] == key
            },
        forall|a: int, b: int|
            0 <= a < b < positions_of(keys, key).len() ==> positions_of(keys, key)[a]
                < positions_of(keys, key)[b],
        forall|x: int|
            0 <= x < keys.len() && keys[x] == key ==> #[trigger] positions_of(keys, key).contains(
                x,
            ),
    decreases keys.len(),
{
    let pos = positions_of(keys, key);
    if keys.len() > 0 {
        let shorter = keys.drop_last();
        let before = positions_of(shorter, key);
        lemma_positions_of(shorter, key);
        assert forall|x: int| 0 <= x < keys.len() && keys[x] == key implies #[trigger] pos.contains(
            x,
        ) by {
            if x < shorter.len() {
                assert(shorter[x] == key);
                assert(before.contains(x));
                let m: int = choose|m: int| 0 <= m < before.len() && before[m] == x;
                assert(pos[m] == x);
            } else {
                assert(pos[pos.len() - 1] == x);
            }
        }
    }
}

/// The concatenated buckets hold positions of keys below the bound only,
/// sorted by key and then by position, and miss none.
pub proof fn lemma_stable_order(keys: Seq<u32>, bound: nat)
    ensures
        forall|m: int|
            0 <= m < stable_order(keys, bound).len() ==> {
                &&& 0 <= #[trigger] stable_order(keys, bound)[m] < keys.len()
                &&& keys[stable_order(keys, bound)[m]] < bound
            },
        forall|a: int, b: int|
            #![trigger stable_order(keys, bound)[a], stable_order(keys, bound)[b]]
            0 <= a < b < stable_order(keys, bound).len() ==> {
                let x = stable_order(keys, bound)[a];
                let y = stable_order(keys, bound)[b];
                keys[x] < keys[y] || (keys[x] == keys[y] && x < y)
            },
        forall|x: int|
            0 <= x < keys.len() && keys[x] < bound ==> #[trigger] stable_order(
                keys,
                bound,
            ).contains(x),
    decreases bound,
{
    let so = stable_order(keys, bound);
    if bound > 0 {
        let lower = stable_order(keys, (bound - 1) as nat);
        let top = positions_of(keys, bound - 1);
        lemma_stable_order(keys, (bound - 1) as nat);
        lemma_positions_of(keys, bound - 1);
        assert forall|m: int| 0 <= m < so.len() implies {
            &&& 0 <= #[trigger] so[m] < keys.len()
            &&& keys[so[m]] < bound
        } by {
            if m < lower.len() {
                assert(so[m] == lower[m]);
            } else {
                assert(so[m] == top[m - lower.len()]);
            }
        }
        assert forall|a: int, b: int| 0 <= a < b < so.len() implies {
            let x = #[trigger] so[a];
            let y = #[trigger] so[b];
            keys[x] < keys[y] || (keys[x] == keys[y] && x < y)
        } by {
            if b < lower.len() {
                assert(so[a] == lower[a] && so[b] == lower[b]);
            } else if a < lower.len() {
                assert(so[a] == lower[a] && so[b] == top[b - lower.len()]);
            } else {
                assert(so[a] == top[a - lower.len()] && so[b] == top[b - lower.len()]);
            }
        }
        assert forall|x: int| 0 <= x < keys.len() && keys[x] < bound implies #[trigger] so.contains(
            x,
        ) by {
            if keys[x] < bound - 1 {
                assert(lower.contains(x));
                let m: int = choose|m: int| 0 <= m < lower.len() && lower[m] == x;
                assert(so[m] == x);
            } else {
                assert(top.contains(x));
                let m: int = choose|m: int| 0 <= m < top.len() && top[m] == x;
                assert(so[lower.len() + m] == x);
            }
        }
    }
}

/// With every key below the bound, the order of a counting sort is a stable
/// sorting of the keys.
pub proof fn lemma_stable_order_sorts(keys: Seq<u32>, bound: nat)
    requires
        keys_below(keys, bound),
    ensures
        is_stable_sorting(stable_order(keys, bound), keys),
{
    let so = stable_order(keys, bound);
    lemma_stable_order(keys, bound);
    assert(so.no_duplicates()) by {
        assert forall|i: int, j: int|
            0 <= i < so.len() && 0 <= j < so.len() && i != j implies so[i] != so[j] by {
            if i < j {
                assert(so[i] != so[j]);
            } else {
                assert(so[j] != so[i]);
            }
        }
    }
    assert forall|x: int| 0 <= x < keys.len() <==> #[trigger] so.contains(x) by {
        if so.contains(x) {
            let m: int = choose|m: int| 0 <= m < so.len() && so[m] == x;
            assert(0 <= so[m] < keys.len());
        }
    }
    lemma_distinct_positions_len(so, keys.len());
}

/// Two stable sortings of the same keys agree at every position.
proof fn lemma_stable_sortings_agree_at(p: Seq<int>, q: Seq<int>, keys: Seq<u32>, i: int)
    requires
        is_stable_sorting(p, keys),
        is_stable_sorting(q, keys),
        0 <= i < keys.len(),
    ensures
        p[i] == q[i],
    decreases i,
{
    if p[i] != q[i] {
        assert(p.contains(p[i]));
        assert(q.contains(q[i]));
        assert(q.contains(p[i]));
        assert(p.contains(q[i]));
        let j: int = choose|j: int| 0 <= j < q.len() && q[j] == p[i];
        let k: int = choose|k: int| 0 <= k < p.len() && p[k] == q[i];
        if j < i {
            lemma_stable_sortings_agree_at(p, q, keys, j);
            assert(p[j] == p[i]);
        } else if k < i {
            lemma_stable_sortings_agree_at(p, q, keys, k);
            assert(q[k] == q[i]);
        } else {
            assert(i < j && i < k);
            assert(keys[q[i]] < keys[q[j]] || (keys[q[i]] == keys[q[j]] && q[i] < q[j]));
            assert(keys[p[i]] < keys[p[k]] || (keys[p[i]] == keys[p[k]] && p[i] < p[k]));
        }
    }
}

/// There is only one stable sorting of a sequence of keys.
pub proof fn lemma_stable_sorting_unique(p: Seq<int>, q: Seq<int>, keys: Seq<u32>)
    requires
        is_stable_sorting(p, keys),
        is_stable_sorting(q, keys),
    ensures
        p == q,
{
    assert forall|i: int| 0 <= i < p.len() implies p[i] == q[i] by {
        lemma_stable_sortings_agree_at(p, q, keys, i);
    }
    assert(p =~= q);
}

/// A counting sort returns every payload of its input, each as often as the
/// input holds it.
pub proof fn lemma_counting_sort_permutes<T>(elements: Seq<(u32, T)>, bound: nat)
    requires
        keys_below(keys_of(elements), bound),
    ensures
        sorted_payloads(elements, bound).len() == elements.len(),
        sorted_payloads(elements, bound).to_multiset() == payloads_of(elements).to_multiset(),
{
    lemma_stable_order_sorts(keys_of(elements), bound);
    lemma_permute_multiset(stable_order(keys_of(elements), bound), payloads_of(elements));
}

/// In the output of a counting sort the keys never descend: of two payloads
/// the one that comes first has the key that is not the larger one.
pub proof fn lemma_counting_sort_orders(keys: Seq<u32>, bound: nat)
    requires
        keys_below(keys, bound),
    ensures
        is_ascending(permute(stable_order(keys, bound), keys)),
{
    lemma_stable_order_sorts(keys, bound);
    let so = stable_order(keys, bound);
    let out = permute(so, keys);
    assert forall|i: int, j: int| 0 <= i <= j < out.len() implies out[i] <= out[j] by {
        if i < j {
            assert(keys[so[i]] < keys[so[j]] || (keys[so[i]] == keys[so[j]] && so[i] < so[j]));
        }
    }
}

/// A counting sort is stable: two input positions with the same key come
/// out in the order in which they went in.
pub proof fn lemma_counting_sort_is_stable(keys: Seq<u32>, bound: nat)
    requires
        keys_below(keys, bound),
    ensures
        forall|i: int, j: int|
            #![trigger stable_order(keys, bound)[i], stable_order(keys, bound)[j]]
            0 <= i < keys.len() && 0 <= j < keys.len() && keys[stable_order(keys, bound)[i]]
                == keys[stable_order(keys, bound)[j]] ==> (i < j <==> stable_order(keys, bound)[i]
                < stable_order(keys, bound)[j]),
{
    lemma_stable_order_sorts(keys, bound);
    let so = stable_order(keys, bound);
    assert forall|i: int, j: int|
        0 <= i < keys.len() && 0 <= j < keys.len() && keys[#[trigger] so[i]] == keys[#[trigger] so[j]]
        implies (i < j <==> so[i] < so[j]) by {
        if i < j {
            assert(keys[so[i]] < keys[so[j]] || (keys[so[i]] == keys[so[j]] && so[i] < so[j]));
        } else if j < i {
            assert(keys[so[j]] < keys[so[i]] || (keys[so[j]] == keys[so[i]] && so[j] < so[i]));
        }
    }
}

/// On keys that already ascend, a counting sort leaves every position where
/// it is.
pub proof fn lemma_counting_sort_keeps_ascending(keys: Seq<u32>, bound: nat)
    requires
        keys_below(keys, bound),
        is_ascending(keys),
    ensures
        stable_order(keys, bound) == identity(keys.len()),
{
    lemma_stable_order_sorts(keys, bound);
    lemma_identity_is_permutation(keys);
    lemma_stable_sorting_unique(stable_order(keys, bound), identity(keys.len()), keys);
}

/// `count` buckets with nothing in them.
fn empty_buckets<T>(count: usize) -> (buckets: Vec<Vec<T>>)
    ensures
        buckets@.len() == count,
        forall|k: int| 0 <= k < count ==> (#[trigger] buckets@[k])@.len() == 0,
{
    let mut buckets: Vec<Vec<T>> = Vec::new();
    let mut k: usize = 0;
    while k < count
        invariant
            k <= count,
            buckets@.len() == k,
            forall|j: int| 0 <= j < k ==> (#[trigger] buckets@[j])@.len() == 0,
        decreases count - k,
    {
        buckets.push(Vec::new());
        k += 1;
    }
    buckets
}

/// Sorts `(key, payload)` pairs by key and returns the payloads, cloned: in
/// ascending order of their keys, and payloads with the same key in the order
/// in which the input holds them.
///
/// Each pair goes, in input order, to the bucket of its key; the buckets of
/// the keys `0, 1, .., max_key_bound - 1` are then joined. Every key has to be
/// below `max_key_bound`. An input that breaks this is refused: with
/// [`SortError::InvalidBound`] where the bound is zero and there is a pair,
/// else with [`SortError::KeyOutOfRange`] for the first key that is too large.
/// The empty input is sorted under every bound.
pub fn counting_sort_with_payload<T: Clone>(elements: &[(u32, T)], max_key_bound: usize) -> (result:
    Result<Vec<T>, SortError>)
    ensures
        result is Ok <==> keys_below(keys_of(elements@), max_key_bound as nat),
        result matches Ok(sorted) ==> is_clone_of(
            sorted@,
            sorted_payloads(elements@, max_key_bound as nat),
        ),
        result matches Ok(sorted) ==> (is_ascending(keys_of(elements@)) ==> is_clone_of(
            sorted@,
            payloads_of(elements@),
        )),
        result matches Ok(sorted) ==> (elements@.len() <= 1 ==> is_clone_of(
            sorted@,
            payloads_of(elements@),
        )),
        result matches Err(e) ==> e.rejects(keys_of(elements@), max_key_bound as nat),
{
    let n: usize = elements.len();
    let ghost keys = keys_of(elements@);
    let ghost payloads = payloads_of(elements@);
    if max_key_bound == 0 && n > 0 {
        assert(!(keys[0] < 0));
        return Err(SortError::InvalidBound);
    }
    let mut buckets: Vec<Vec<T>> = empty_buckets(max_key_bound);
    let mut i: usize = 0;
    while i < n
        invariant
            i <= n,
            n == elements@.len(),
            keys == keys_of(elements@),
            payloads == payloads_of(elements@),
            n > 0 ==> max_key_bound > 0,
            buckets@.len() == max_key_bound,
            forall|j: int| 0 <= j < i ==> keys[j] < max_key_bound,
            forall|k: int|
                0 <= k < max_key_bound ==> is_clone_of(
                    (#[trigger] buckets@[k])@,
                    permute(positions_of(keys.take(i as int), k), payloads),
                ),
        decreases n - i,
    {
        let key: usize = elements[i].0 as usize;
        if key >= max_key_bound {
            assert(!(keys[i as int] < max_key_bound));
            return Err(SortError::KeyOutOfRange { index: i, key: elements[i].0 });
        }
        let ghost before = buckets@;
        let payload = elements[i].1.clone();
        buckets[key].push(payload);
        proof {
            let seen = keys.take(i as int);
            let next = keys.take(i as int + 1);
            assert(next.drop_last() =~= seen);
            assert(next.last() == keys[i as int]);
            assert forall|k: int| 0 <= k < max_key_bound implies is_clone_of(
                (#[trigger] buckets@[k])@,
                permute(positions_of(next, k), payloads),
            ) by {
                let old_positions = positions_of(seen, k);
                assert(is_clone_of(before[k]@, permute(old_positions, payloads)));
                if k == key {
                    assert(positions_of(next, k) == old_positions.push(i as int));
                    assert(permute(old_positions.push(i as int), payloads) =~= permute(
                        old_positions,
                        payloads,
                    ).push(payloads[i as int]));
                    assert(buckets@[k]@ == before[k]@.push(payload));
                } else {
                    assert(positions_of(next, k) == old_positions);
                    assert(buckets@[k] == before[k]);
                }
            }
        }
        i += 1;
    }
    assert(keys.take(n as int) =~= keys);
    assert(keys_below(keys, max_key_bound as nat));
    let mut sorted: Vec<T> = Vec::new();
    let mut k: usize = 0;
    assert(permute(stable_order(keys, 0), payloads) =~= Seq::<T>::empty());
    while k < max_key_bound
        invariant
            k <= max_key_bound,
            buckets@.len() == max_key_bound,
            is_clone_of(sorted@, permute(stable_order(keys, k as nat), payloads)),
            forall|j: int|
                k <= j < max_key_bound ==> is_clone_of(
                    (#[trigger] buckets@[j])@,
                    permute(positions_of(keys, j), payloads),
                ),
        decreases max_key_bound - k,
    {
        let ghost before = buckets@;
        let ghost joined = sorted@;
        sorted.append(&mut buckets[k]);
        proof {
            let lower = stable_order(keys, k as nat);
            let top = positions_of(keys, k as int);
            assert(stable_order(keys, (k + 1) as nat) == lower + top);
            assert(permute(lower + top, payloads) =~= permute(lower, payloads) + permute(
                top,
                payloads,
            ));
            assert(is_clone_of(before[k as int]@, permute(top, payloads)));
            assert(sorted@ == joined + before[k as int]@);
            assert forall|j: int| k + 1 <= j < max_key_bound implies is_clone_of(
                (#[trigger] buckets@[j])@,
                permute(positions_of(keys, j), payloads),
            ) by {
                assert(buckets@[j] == before[j]);
            }
        }
        k += 1;
    }
    proof {
        if is_ascending(keys) {
            lemma_counting_sort_keeps_ascending(keys, max_key_bound as nat);
            lemma_identity_is_permutation(payloads);
        }
    }
    Ok(sorted)
}

/// Sorts keys that lie below `max_key_bound` into ascending order.
///
/// Each key is paired with itself and the pairs go through
/// [`counting_sort_with_payload`], which also decides what is refused.
pub fn counting_sort(list: &[u32], max_key_bound: usize) -> (result: Result<Vec<u32>, SortError>)
    ensures
        result is Ok <==> keys_below(list@, max_key_bound as nat),
        result matches Ok(sorted) ==> is_ascending(sorted@) && sorted@.to_multiset()
            == list@.to_multiset(),
        result matches Ok(sorted) ==> sorted@ == permute(
            stable_order(list@, max_key_bound as nat),
            list@,
        ),
        result matches Ok(sorted) ==> (is_ascending(list@) ==> sorted@ == list@),
        result matches Ok(sorted) ==> (list@.len() <= 1 ==> sorted@ == list@),
        result matches Err(e) ==> e.rejects(list@, max_key_bound as nat),
{
    let n: usize = list.len();
    let mut paired: Vec<(u32, u32)> = Vec::new();
    let mut i: usize = 0;
    while i < n
        invariant
            i <= n,
            n == list@.len(),
            paired@.len() == i,
            forall|j: int| 0 <= j < i ==> paired@[j] == (list@[j], list@[j]),
        decreases n - i,
    {
        paired.push((list[i], list[i]));
        i += 1;
    }
    assert(keys_of(paired@) =~= list@);
    assert(payloads_of(paired@) =~= list@);
    let result = counting_sort_with_payload(paired.as_slice(), max_key_bound);
    proof {
        if result is Ok {
            let sorted = result->Ok_0;
            let bound = max_key_bound as nat;
            assert(sorted@ =~= sorted_payloads(paired@, bound));
            lemma_counting_sort_permutes(paired@, bound);
            lemma_counting_sort_orders(list@, bound);
            if is_ascending(list@) {
                lemma_ascending_unique(sorted@, list@);
            }
        }
    }
    result
}

} // verus!
