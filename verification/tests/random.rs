use stable_sorts::random::{random_list, reduce_sample};

#[test]
fn random_list_has_the_size_asked_for() {
    assert_eq!(random_list(0, 1500).len(), 0);
    assert_eq!(random_list(1, 1500).len(), 1);
    assert_eq!(random_list(1000, 1500).len(), 1000);
}

#[test]
fn random_list_stays_below_the_maximum() {
    for max in [1u32, 2, 10, 1500, u32::MAX] {
        let list = random_list(2_000, max);
        assert!(list.iter().all(|value| *value < max));
    }
}

#[test]
fn random_list_with_maximum_one_is_all_zeros() {
    assert_eq!(random_list(50, 1), vec![0; 50]);
}

#[test]
fn random_list_is_not_constant() {
    let list = random_list(1_000, 1_000_000);
    assert!(list.iter().any(|value| *value != list[0]));
}

#[test]
fn reduce_sample_takes_the_remainder() {
    assert_eq!(reduce_sample(1501, 1500), 1);
    assert_eq!(reduce_sample(1499, 1500), 1499);
    assert_eq!(reduce_sample(1500, 1500), 0);
    assert_eq!(reduce_sample(u32::MAX, 10), 5);
    assert_eq!(reduce_sample(0, 1), 0);
}
