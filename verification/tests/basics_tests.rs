use lessons::basics::{factorial, find_largest, find_largest_helper};
use lessons::calc::{perform_calculation, Op};

#[test]
fn factorial_of_zero_is_one() {
    assert_eq!(factorial(0), 1);
}

#[test]
fn factorial_small_values() {
    assert_eq!(factorial(1), 1);
    assert_eq!(factorial(5), 120);
    assert_eq!(factorial(10), 3628800);
}

#[test]
fn factorial_largest_that_fits() {
    assert_eq!(factorial(20), 2432902008176640000);
}

#[test]
fn factorial_recurrence() {
    for n in 1..=20u64 {
        assert_eq!(factorial(n), n * factorial(n - 1));
    }
}

#[test]
fn find_largest_helper_empty_is_none() {
    let empty: Vec<i32> = vec![];
    assert_eq!(find_largest_helper(&empty), None);
}

#[test]
fn find_largest_helper_numbers() {
    assert_eq!(find_largest_helper(&[3, 7, 2, 5]), Some(7));
    assert_eq!(find_largest_helper(&[-4]), Some(-4));
    assert_eq!(find_largest_helper(&[1, 1, 1]), Some(1));
}

#[test]
fn find_largest_strings() {
    let words = vec!["pear".to_string(), "apple".to_string(), "zucchini".to_string(), "fig".to_string()];
    assert_eq!(find_largest(&words), "zucchini".to_string());
}

#[test]
fn find_largest_keeps_first_of_equal_maxima() {
    // Pairs compare by both fields, so equal maxima are identical; the first is returned.
    let items = vec![(2, 'a'), (9, 'b'), (9, 'b'), (1, 'z')];
    assert_eq!(find_largest(&items), (9, 'b'));
    assert_eq!(find_largest(&[5u8, 200, 17, 200]), 200);
}

#[test]
fn calculation_add_and_sub() {
    assert_eq!(perform_calculation(5, Op::Add(3)), 8);
    assert_eq!(perform_calculation(5, Op::Sub(7)), -2);
    assert_eq!(perform_calculation(i32::MAX - 1, Op::Add(1)), i32::MAX);
}

#[test]
fn calculation_clamp() {
    assert_eq!(perform_calculation(5, Op::Clamp { low: 0, high: 10 }), 5);
    assert_eq!(perform_calculation(-5, Op::Clamp { low: 0, high: 10 }), 0);
    assert_eq!(perform_calculation(50, Op::Clamp { low: 0, high: 10 }), 10);
}

#[test]
fn calculation_clamp_with_low_above_high_gives_high() {
    assert_eq!(perform_calculation(5, Op::Clamp { low: 10, high: 0 }), 0);
    assert_eq!(perform_calculation(20, Op::Clamp { low: 10, high: 0 }), 0);
}

#[test]
fn largest_does_not_depend_on_order() {
    let a = [4, 11, 7, 11, 2];
    let b = [11, 2, 4, 7, 11];
    assert_eq!(find_largest_helper(&a), find_largest_helper(&b));
    assert_eq!(find_largest(&a), 11);
    let empty: [i32; 0] = [];
    assert_eq!(find_largest_helper(&empty), None);
}
