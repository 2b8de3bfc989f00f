use stable_sorts::insertion::insertion_sort;

#[test]
fn insertion_sort_sorts() {
    assert_eq!(
        insertion_sort(&[170, 45, 75, 90, 802, 24, 2, 66]),
        vec![2, 24, 45, 66, 75, 90, 170, 802]
    );
    assert_eq!(insertion_sort(&[2, 1]), vec![1, 2]);
    assert_eq!(insertion_sort(&[3, 3, 1, 3, 1]), vec![1, 1, 3, 3, 3]);
}

#[test]
fn insertion_sort_moves_an_item_to_the_very_front() {
    assert_eq!(insertion_sort(&[5, 6, 7, 0]), vec![0, 5, 6, 7]);
    assert_eq!(insertion_sort(&[1, 0]), vec![0, 1]);
}

#[test]
fn insertion_sort_of_nothing_is_nothing() {
    assert_eq!(insertion_sort(&[]), Vec::<u32>::new());
}

#[test]
fn insertion_sort_of_one_number_is_that_number() {
    assert_eq!(insertion_sort(&[42]), vec![42]);
}

#[test]
fn insertion_sort_leaves_an_ascending_list_as_it_is() {
    let ascending = [0, 1, 1, 2, 3, 5, 8, u32::MAX];
    assert_eq!(insertion_sort(&ascending), ascending.to_vec());
}

#[test]
fn insertion_sort_sorts_a_descending_list() {
    let descending: Vec<u32> = (0..200).rev().collect();
    let ascending: Vec<u32> = (0..200).collect();
    assert_eq!(insertion_sort(&descending), ascending);
}

#[test]
fn insertion_sort_agrees_with_the_standard_sort() {
    let mut state: u32 = 99;
    let mut list: Vec<u32> = Vec::new();
    for _ in 0..500 {
        state = state.wrapping_mul(1_103_515_245).wrapping_add(12_345);
        list.push(state % 1_500);
    }
    let mut expected = list.clone();
    expected.sort();
    assert_eq!(insertion_sort(&list), expected);
}
