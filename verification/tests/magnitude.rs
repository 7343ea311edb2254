use big_integer::magnitude::{
    add_magnitudes, div_magnitudes, equal_digits, is_one, is_zero, less_than, mul_magnitudes,
    sub_magnitudes, trim_zero, zero,
};

#[test]
fn zero_is_one_digit() {
    assert_eq!(zero(), vec![0]);
    assert!(is_zero(&zero()));
    assert!(!is_zero(&vec![1]));
    assert!(!is_zero(&vec![1, 0]));
    assert!(is_one(&vec![1]));
    assert!(!is_one(&vec![0]));
    assert!(!is_one(&vec![1, 1]));
}

#[test]
fn trims_leading_zeros_only() {
    assert_eq!(trim_zero(vec![0, 0, 1, 2, 0]), vec![1, 2, 0]);
    assert_eq!(trim_zero(vec![1, 0, 0]), vec![1, 0, 0]);
    assert_eq!(trim_zero(vec![0, 0, 0]), vec![0]);
    assert_eq!(trim_zero(vec![0]), vec![0]);
    assert_eq!(trim_zero(vec![]), vec![0]);
}

#[test]
fn orders_by_length_then_digits() {
    assert!(less_than(&vec![9], &vec![1, 0]));
    assert!(!less_than(&vec![1, 0], &vec![9]));
    assert!(less_than(&vec![1, 2, 3], &vec![1, 2, 4]));
    assert!(less_than(&vec![1, 9, 9], &vec![2, 0, 0]));
    assert!(!less_than(&vec![1, 2, 3], &vec![1, 2, 3]));
    assert!(!less_than(&vec![2, 0, 0], &vec![1, 9, 9]));
    assert!(equal_digits(&vec![1, 2, 3], &vec![1, 2, 3]));
    assert!(!equal_digits(&vec![1, 2, 3], &vec![1, 2]));
    assert!(!equal_digits(&vec![1, 2, 3], &vec![1, 2, 4]));
}

#[test]
fn adds_with_carry_into_a_new_digit() {
    assert_eq!(add_magnitudes(&vec![9, 9, 9], &vec![1]), vec![1, 0, 0, 0]);
    assert_eq!(add_magnitudes(&vec![1], &vec![9, 9, 9]), vec![1, 0, 0, 0]);
    assert_eq!(add_magnitudes(&vec![1, 2, 3], &vec![4, 5, 6]), vec![5, 7, 9]);
    assert_eq!(add_magnitudes(&vec![0], &vec![0]), vec![0]);
    assert_eq!(add_magnitudes(&vec![9], &vec![9]), vec![1, 8]);
}

#[test]
fn subtracts_with_borrow_across_zeros() {
    assert_eq!(sub_magnitudes(&vec![1, 0, 0, 0], &vec![1]), vec![9, 9, 9]);
    assert_eq!(sub_magnitudes(&vec![1, 0, 0, 0], &vec![9, 9, 9]), vec![1]);
    assert_eq!(sub_magnitudes(&vec![4, 5, 6], &vec![4, 5, 6]), vec![0]);
    assert_eq!(sub_magnitudes(&vec![4, 5, 6], &vec![0]), vec![4, 5, 6]);
    assert_eq!(sub_magnitudes(&vec![5, 0, 3], &vec![7, 8]), vec![4, 2, 5]);
}

#[test]
fn multiplies_digit_by_digit() {
    assert_eq!(mul_magnitudes(&vec![9, 9], &vec![9, 9]), vec![9, 8, 0, 1]);
    assert_eq!(mul_magnitudes(&vec![1, 2], &vec![1, 2]), vec![1, 4, 4]);
    assert_eq!(mul_magnitudes(&vec![0], &vec![1, 2]), vec![0]);
    assert_eq!(mul_magnitudes(&vec![1, 2], &vec![0]), vec![0]);
    assert_eq!(mul_magnitudes(&vec![1], &vec![7, 7]), vec![7, 7]);
    assert_eq!(mul_magnitudes(&vec![2, 5], &vec![4]), vec![1, 0, 0]);
}

#[test]
fn divides_by_long_division() {
    assert_eq!(div_magnitudes(&vec![1, 0, 0], &vec![3]), vec![3, 3]);
    assert_eq!(div_magnitudes(&vec![1, 0, 0, 1, 0, 0], &vec![1, 0, 0]), vec![1, 0, 0, 1]);
    assert_eq!(div_magnitudes(&vec![1, 2, 0, 0, 0, 3, 4], &vec![1, 2]), vec![1, 0, 0, 0, 0, 2]);
    assert_eq!(div_magnitudes(&vec![9, 9, 9], &vec![1, 0, 0, 0]), vec![0]);
    assert_eq!(div_magnitudes(&vec![0], &vec![7]), vec![0]);
    assert_eq!(div_magnitudes(&vec![8, 1], &vec![9]), vec![9]);
    assert_eq!(div_magnitudes(&vec![9, 9], &vec![1]), vec![9, 9]);
}
