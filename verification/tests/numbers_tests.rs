use practice_apps::numbers::{
    contains_number, even_numbers, max_number, multiply_by_two, numbers_greater_than,
    running_sums, sum_numbers, sum_odd_numbers,
};
use practice_apps::numbers::{doubling_fits, odd_numbers, sums_fit};

#[test]
fn max_of_sample() {
    assert_eq!(max_number(&vec![1, 2, 3, 4, 5]), 5);
    assert_eq!(max_number(&vec![-7]), -7);
    assert_eq!(max_number(&vec![-3, -1, -2]), -1);
}

#[test]
fn sums() {
    let v = vec![1, 2, 3, 4, 5];
    assert_eq!(sum_numbers(&v), 15);
    assert_eq!(sum_odd_numbers(&v), 9);
    assert_eq!(sum_odd_numbers(&vec![-3, -2, 7]), 4);
    assert_eq!(sum_odd_numbers(&vec![]), 0);
    assert_eq!(running_sums(&v), vec![1, 3, 6, 10, 15]);
}

#[test]
fn membership() {
    let v = vec![1, 2, 3, 4, 5];
    assert!(contains_number(&v, 3));
    assert!(!contains_number(&v, 6));
    assert!(!contains_number(&vec![], 0));
}

#[test]
fn doubling_and_filters() {
    let v = vec![1, 2, 3, 4, 5];
    assert_eq!(multiply_by_two(&v), vec![2, 4, 6, 8, 10]);
    assert_eq!(even_numbers(&v), vec![2, 4]);
    assert_eq!(even_numbers(&vec![-4, -3, 0]), vec![-4, 0]);
    assert_eq!(numbers_greater_than(&v, 3), vec![4, 5]);
    assert_eq!(numbers_greater_than(&v, 5), Vec::<i32>::new());
}

#[test]
fn law_sum_splits_odd_even_example() {
    let v = vec![3, -8, 5, 10, -1, 0];
    let even_sum: i32 = even_numbers(&v).iter().sum();
    assert_eq!(sum_numbers(&v), sum_odd_numbers(&v) + even_sum);
}

#[test]
fn law_doubled_is_even_example() {
    let v = vec![3, -7, 11, 0];
    let d = multiply_by_two(&v);
    assert_eq!(sum_odd_numbers(&d), 0);
    assert_eq!(even_numbers(&d), d);
}

#[test]
fn law_last_running_sum_is_total_example() {
    let v = vec![4, -2, 9];
    assert_eq!(*running_sums(&v).last().unwrap(), sum_numbers(&v));
}

#[test]
fn max_is_contained() {
    let v = vec![9, -2, 14, 3];
    assert!(contains_number(&v, max_number(&v)));
}

#[test]
fn overflow_guards() {
    assert!(sums_fit(&vec![1, 2, 3]));
    assert!(!sums_fit(&vec![i32::MAX, 1, -5]));
    assert!(sums_fit(&vec![i32::MAX, -1, 1]));
    assert!(!sums_fit(&vec![i32::MIN, -1]));
    assert!(doubling_fits(&vec![1073741823, -1073741824]));
    assert!(!doubling_fits(&vec![1073741824]));
    assert!(!doubling_fits(&vec![-1073741825]));
    assert_eq!(odd_numbers(&vec![1, 2, 3, -5, -4]), vec![1, 3, -5]);
}
