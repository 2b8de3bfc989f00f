use stable_sorts::digits::{digit_at, digits};

#[test]
fn zero_has_the_single_digit_zero() {
    assert_eq!(digits(0), vec![0]);
}

#[test]
fn digits_are_most_significant_first() {
    assert_eq!(digits(7), vec![7]);
    assert_eq!(digits(10), vec![1, 0]);
    assert_eq!(digits(802), vec![8, 0, 2]);
    assert_eq!(digits(170), vec![1, 7, 0]);
    assert_eq!(digits(1_000_000_000), vec![1, 0, 0, 0, 0, 0, 0, 0, 0, 0]);
}

#[test]
fn largest_number_has_ten_digits() {
    assert_eq!(digits(u32::MAX), vec![4, 2, 9, 4, 9, 6, 7, 2, 9, 5]);
}

#[test]
fn position_zero_is_the_least_significant_digit() {
    let d = digits(802);
    assert_eq!(digit_at(&d, 0), 2);
    assert_eq!(digit_at(&d, 1), 0);
    assert_eq!(digit_at(&d, 2), 8);
}

#[test]
fn position_beyond_the_digits_is_zero() {
    assert_eq!(digit_at(&digits(7), 5), 0);
    assert_eq!(digit_at(&digits(7), 1), 0);
    assert_eq!(digit_at(&digits(802), 3), 0);
    assert_eq!(digit_at(&digits(u32::MAX), 10), 0);
    assert_eq!(digit_at(&digits(0), usize::MAX), 0);
}

#[test]
fn empty_digit_sequence_holds_zero_everywhere() {
    assert_eq!(digit_at(&[], 0), 0);
    assert_eq!(digit_at(&[], 3), 0);
}

#[test]
fn digit_at_agrees_with_division() {
    let numbers = [0u32, 9, 10, 99, 100, 4096, 65_535, 123_456_789, u32::MAX];
    for n in numbers {
        let d = digits(n);
        let mut unit: u64 = 1;
        for position in 0..12 {
            let expected = ((n as u64 / unit) % 10) as u32;
            assert_eq!(digit_at(&d, position), expected);
            unit *= 10;
        }
    }
}

#[test]
fn digits_spell_the_number() {
    let numbers = [0u32, 5, 42, 1000, 90_210, 4_000_000_000, u32::MAX];
    for n in numbers {
        let text: String = digits(n).iter().map(|d| format!("{}", d)).collect();
        assert_eq!(text, format!("{}", n));
    }
}
