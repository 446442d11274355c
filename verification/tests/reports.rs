use aoc24::reports::{is_safe, is_safe_dampened, solve as solve_reports};

#[test]
fn reports_example_counts() {
    let text = "7 6 4 2 1\n1 2 7 8 9\n9 7 6 2 1\n1 3 2 4 5\n8 6 4 4 1\n1 3 6 7 9\n";
    assert_eq!(solve_reports(text), Some((2, 4)));
}

#[test]
fn reports_rise_or_fall_by_one_to_three() {
    assert!(is_safe(&vec![7, 6, 4, 2, 1]));
    assert!(!is_safe(&vec![1, 2, 7, 8, 9]));
    assert!(!is_safe(&vec![8, 6, 4, 4, 1]));
    assert!(!is_safe(&vec![1, 3, 2, 4, 5]));
    assert!(is_safe(&vec![-32768, -32767]));
    assert!(!is_safe(&vec![-32768, 32767]));
    assert!(is_safe_dampened(&vec![1, 3, 2, 4, 5]));
    assert!(is_safe_dampened(&vec![8, 6, 4, 4, 1]));
    assert!(!is_safe_dampened(&vec![9, 7, 6, 2, 1]));
}

#[test]
fn reports_lines_must_be_levels() {
    assert_eq!(solve_reports("1 2\n"), Some((1, 1)));
    assert_eq!(solve_reports("1 9\n"), None);
    assert_eq!(solve_reports("1\n"), None);
    assert_eq!(solve_reports("1 x 3\n"), None);
    assert_eq!(solve_reports("1 40000 3\n"), None);
    assert_eq!(solve_reports("+1\t-2   -5\n"), Some((1, 1)));
    assert_eq!(solve_reports(""), Some((0, 0)));
}
