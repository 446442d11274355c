use aoc24::lists::{parse, solve, sort_numbers, total_distance, total_similarity};

const EXAMPLE: &str = "3   4\n4   3\n2   5\n1   3\n3   9\n3   3\n";

#[test]
fn the_example_lists_are_11_apart_and_31_alike() {
    assert_eq!(solve(EXAMPLE), Some((11, 31)));
}

#[test]
fn the_lists_are_read_by_columns() {
    let (left, right) = parse(EXAMPLE).unwrap();
    assert_eq!(left, vec![3, 4, 2, 1, 3, 3]);
    assert_eq!(right, vec![4, 3, 5, 3, 9, 3]);
}

#[test]
fn a_line_gives_its_first_and_its_last_number() {
    let (left, right) = parse("7 8\n-2 5 +9\n").unwrap();
    assert_eq!(left, vec![7, -2]);
    assert_eq!(right, vec![8, 9]);
    assert!(parse("7\n").is_none());
}

#[test]
fn a_line_without_numbers_is_refused() {
    assert_eq!(solve("1 2\n\n3 4\n"), None);
    assert_eq!(solve("1 x\n"), None);
    assert_eq!(solve("2147483648 1\n"), None);
}

#[test]
fn numbers_are_sorted_upwards() {
    assert_eq!(sort_numbers(vec![3, -1, 2, 3, i32::MIN, i32::MAX]), vec![i32::MIN, -1, 2, 3, 3, i32::MAX]);
    assert_eq!(sort_numbers(vec![]), Vec::<i32>::new());
}

#[test]
fn distances_and_similarities_add_up() {
    assert_eq!(total_distance(&vec![1, 2, 3, 3, 3, 4], &vec![3, 3, 3, 4, 5, 9]), Some(11));
    assert_eq!(total_similarity(&vec![3, 4, 2, 1, 3, 3], &vec![4, 3, 5, 3, 9, 3]), Some(31));
    assert_eq!(total_distance(&vec![i32::MIN], &vec![i32::MAX]), None);
    assert_eq!(total_similarity(&vec![i32::MAX], &vec![i32::MAX, i32::MAX]), None);
    assert_eq!(solve(""), Some((0, 0)));
}
