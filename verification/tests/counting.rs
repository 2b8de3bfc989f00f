use stable_sorts::counting::{counting_sort, counting_sort_with_payload};
use stable_sorts::error::SortError;

#[test]
fn payloads_come_out_by_key_and_equal_keys_in_input_order() {
    let elements = [(3, "a"), (1, "b"), (3, "c")];
    assert_eq!(counting_sort_with_payload(&elements, 5), Ok(vec!["b", "a", "c"]));
}

#[test]
fn key_equal_to_the_bound_is_out_of_range() {
    let elements = [(5, "x")];
    assert_eq!(
        counting_sort_with_payload(&elements, 5),
        Err(SortError::KeyOutOfRange { index: 0, key: 5 })
    );
}

#[test]
fn the_first_key_out_of_range_is_the_one_reported() {
    let elements = [(2, 'a'), (9, 'b'), (0, 'c'), (7, 'd')];
    assert_eq!(
        counting_sort_with_payload(&elements, 4),
        Err(SortError::KeyOutOfRange { index: 1, key: 9 })
    );
}

#[test]
fn largest_key_under_the_bound_is_accepted() {
    let elements = [(4, "top"), (0, "bottom")];
    assert_eq!(counting_sort_with_payload(&elements, 5), Ok(vec!["bottom", "top"]));
}

#[test]
fn zero_bound_with_elements_is_an_invalid_bound() {
    let elements = [(0, "x")];
    assert_eq!(counting_sort_with_payload(&elements, 0), Err(SortError::InvalidBound));
    assert_eq!(counting_sort(&[0, 0], 0), Err(SortError::InvalidBound));
}

#[test]
fn empty_input_is_sorted_under_every_bound() {
    let nothing: [(u32, String); 0] = [];
    assert_eq!(counting_sort_with_payload(&nothing, 0), Ok(vec![]));
    assert_eq!(counting_sort_with_payload(&nothing, 1), Ok(vec![]));
    assert_eq!(counting_sort_with_payload(&nothing, 10), Ok(vec![]));
    assert_eq!(counting_sort(&[], 0), Ok(vec![]));
    assert_eq!(counting_sort(&[], 50), Ok(vec![]));
}

#[test]
fn single_element_comes_back_as_it_is() {
    assert_eq!(counting_sort_with_payload(&[(7, "only")], 8), Ok(vec!["only"]));
    assert_eq!(counting_sort(&[7], 8), Ok(vec![7]));
}

#[test]
fn payloads_that_are_not_copy_are_cloned() {
    let elements =
        vec![(2, String::from("two")), (0, String::from("zero")), (1, String::from("one"))];
    let sorted = counting_sort_with_payload(&elements, 3);
    assert_eq!(
        sorted,
        Ok(vec![String::from("zero"), String::from("one"), String::from("two")])
    );
    assert_eq!(elements[0], (2, String::from("two")));
    assert_eq!(elements.len(), 3);
}

#[test]
fn counting_sort_is_stable_on_every_key() {
    let keys = [2u32, 0, 2, 1, 0, 2, 1, 1, 0];
    let elements: Vec<(u32, usize)> = keys.iter().map(|k| *k).zip(0..keys.len()).collect();
    let sorted = counting_sort_with_payload(&elements, 3).unwrap();
    assert_eq!(sorted, vec![1, 4, 8, 3, 6, 7, 0, 2, 5]);
    for pair in sorted.windows(2) {
        let (first, second) = (pair[0], pair[1]);
        assert!(keys[first] <= keys[second]);
        if keys[first] == keys[second] {
            assert!(first < second);
        }
    }
}

#[test]
fn counting_sort_returns_a_permutation_of_the_payloads() {
    let elements = [(4, 'e'), (1, 'b'), (4, 'e'), (0, 'a'), (1, 'x'), (3, 'd')];
    let sorted = counting_sort_with_payload(&elements, 5).unwrap();
    assert_eq!(sorted, vec!['a', 'b', 'x', 'd', 'e', 'e']);
    let mut got = sorted.clone();
    got.sort();
    let mut expected: Vec<char> = elements.iter().map(|e| e.1).collect();
    expected.sort();
    assert_eq!(got, expected);
}

#[test]
fn counting_sort_leaves_ascending_keys_as_they_are() {
    let elements = [(0, "a"), (0, "b"), (1, "c"), (3, "d"), (3, "e")];
    assert_eq!(
        counting_sort_with_payload(&elements, 4),
        Ok(vec!["a", "b", "c", "d", "e"])
    );
    assert_eq!(counting_sort(&[1, 1, 2, 5, 8], 9), Ok(vec![1, 1, 2, 5, 8]));
}

#[test]
fn counting_sort_sorts_keys() {
    assert_eq!(counting_sort(&[3, 1, 2, 3, 0, 1], 4), Ok(vec![0, 1, 1, 2, 3, 3]));
    assert_eq!(counting_sort(&[49, 0, 25], 50), Ok(vec![0, 25, 49]));
}

#[test]
fn counting_sort_reports_a_key_out_of_range() {
    assert_eq!(
        counting_sort(&[1, 2, 50, 3, 60], 50),
        Err(SortError::KeyOutOfRange { index: 2, key: 50 })
    );
}

#[test]
fn counting_sort_twice_is_counting_sort_once() {
    let once = counting_sort(&[5, 3, 5, 0, 2, 2], 6).unwrap();
    let twice = counting_sort(&once, 6).unwrap();
    assert_eq!(once, twice);
}
