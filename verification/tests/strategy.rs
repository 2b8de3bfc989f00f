use stable_sorts::error::SortError;
use stable_sorts::random::random_list;
use stable_sorts::strategy::Strategy;

#[test]
fn strategies_have_their_names() {
    assert_eq!(Strategy::Insertion.name(), "insertion");
    assert_eq!(Strategy::Counting { max_key_bound: 50 }.name(), "counting");
    assert_eq!(Strategy::Radix.name(), "radix");
}

#[test]
fn every_strategy_sorts_the_same_list_the_same_way() {
    let list = [31, 4, 15, 9, 26, 5, 35, 8, 49, 9, 0];
    let expected = vec![0, 4, 5, 8, 9, 9, 15, 26, 31, 35, 49];
    assert_eq!(Strategy::Insertion.sort(&list), Ok(expected.clone()));
    assert_eq!(Strategy::Counting { max_key_bound: 50 }.sort(&list), Ok(expected.clone()));
    assert_eq!(Strategy::Radix.sort(&list), Ok(expected));
}

#[test]
fn every_strategy_returns_nothing_for_nothing() {
    assert_eq!(Strategy::Insertion.sort(&[]), Ok(vec![]));
    assert_eq!(Strategy::Counting { max_key_bound: 0 }.sort(&[]), Ok(vec![]));
    assert_eq!(Strategy::Radix.sort(&[]), Ok(vec![]));
}

#[test]
fn every_strategy_returns_a_single_number_as_it_is() {
    assert_eq!(Strategy::Insertion.sort(&[9]), Ok(vec![9]));
    assert_eq!(Strategy::Counting { max_key_bound: 10 }.sort(&[9]), Ok(vec![9]));
    assert_eq!(Strategy::Radix.sort(&[9]), Ok(vec![9]));
}

#[test]
fn only_counting_sort_refuses_large_keys() {
    let list = [3, 70, 1];
    assert_eq!(
        Strategy::Counting { max_key_bound: 50 }.sort(&list),
        Err(SortError::KeyOutOfRange { index: 1, key: 70 })
    );
    assert_eq!(Strategy::Counting { max_key_bound: 0 }.sort(&list), Err(SortError::InvalidBound));
    assert_eq!(Strategy::Insertion.sort(&list), Ok(vec![1, 3, 70]));
    assert_eq!(Strategy::Radix.sort(&list), Ok(vec![1, 3, 70]));
}

#[test]
fn strategies_agree_on_random_lists() {
    let list = random_list(3_000, 1500);
    let mut expected = list.clone();
    expected.sort();
    assert_eq!(Strategy::Insertion.sort(&list), Ok(expected.clone()));
    assert_eq!(Strategy::Counting { max_key_bound: 1500 }.sort(&list), Ok(expected.clone()));
    assert_eq!(Strategy::Radix.sort(&list), Ok(expected));
}
