use aoc24::equations::{get_total_calibration_result_and_invalid, number_of_digits, solve as solve_equations, Equation, RawEquation};

const EQUATIONS: &str = "190: 10 19\n3267: 81 40 27\n83: 17 5\n156: 15 6\n7290: 6 8 6 15\n161011: 16 10 13\n192: 17 8 14\n21037: 9 7 18 13\n292: 11 6 16 20\n";

#[test]
fn equations_example_sums() {
    assert_eq!(solve_equations(EQUATIONS), Some((3749, 11387)));
}

#[test]
fn equations_are_tried_from_left_to_right() {
    let values = [81u64, 40, 27];
    assert!(Equation::new(3267, values[0], &values[1..]).can_be_true(false));
    let values = [15u64, 6];
    assert!(!Equation::new(156, values[0], &values[1..]).can_be_true(false));
    assert!(Equation::new(156, values[0], &values[1..]).can_be_true(true));
    let values = [6u64, 8, 6, 15];
    assert!(Equation::new(7290, values[0], &values[1..]).can_be_true(true));
    let alone: [u64; 0] = [];
    assert!(Equation::new(5, 5, &alone).can_be_true(false));
    let values = [u64::MAX, 2, 0];
    assert!(!Equation::new(0, values[0], &values[1..]).can_be_true(true));
}

#[test]
fn equations_count_digits() {
    assert_eq!(number_of_digits(0), 1);
    assert_eq!(number_of_digits(9), 1);
    assert_eq!(number_of_digits(10), 2);
    assert_eq!(number_of_digits(9999999999999999), 16);
    assert_eq!(number_of_digits(u64::MAX), 20);
}

#[test]
fn equations_are_read_line_by_line() {
    let raw = Equation::from_string("190: 10 19\n83: 17 5\n").unwrap();
    assert_eq!(raw.len(), 2);
    assert_eq!((raw[0].result, raw[0].all_values.clone()), (190, vec![10, 19]));
    let first = Equation::from_raw(&raw[0]);
    assert_eq!((first.result, first.first_value, first.other_values.to_vec()), (190, 10, vec![19]));
    assert!(Equation::from_string("190 10 19\n").is_none());
    assert!(Equation::from_string("190: 10  19\n").is_none());
    assert!(Equation::from_string("190: 10 19: 4\n").is_some());
    assert_eq!(solve_equations("x: 1\n"), None);
    let one = RawEquation { result: 3, all_values: vec![1, 2] };
    let two = RawEquation { result: 4, all_values: vec![1, 2] };
    let (sum, invalid) = get_total_calibration_result_and_invalid(
        vec![Equation::from_raw(&one), Equation::from_raw(&two)],
        false,
    )
    .unwrap();
    assert_eq!(sum, 3);
    assert_eq!(invalid.len(), 1);
    assert_eq!(invalid[0].result, 4);
}
