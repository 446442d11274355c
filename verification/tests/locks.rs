use aoc24::locks::{count_fitting_pairs, does_key_fit_in_lock, parse as parse_locks, parse_pattern, solve as solve_locks};

const SCHEMATICS: &str = "#####\n.####\n.####\n.####\n.#.#.\n.#...\n.....\n\n#####\n##.##\n.#.##\n...##\n...#.\n...#.\n.....\n\n.....\n#....\n#....\n#...#\n#.#.#\n#.###\n#####\n\n.....\n.....\n#.#..\n###..\n###.#\n###.#\n#####\n\n.....\n.....\n.....\n#....\n#.#..\n#.#.#\n#####\n";

#[test]
fn locks_example_has_three_pairs() {
    assert_eq!(solve_locks(SCHEMATICS), Some(3));
}

#[test]
fn locks_and_keys_are_told_apart() {
    let (keys, locks) = parse_locks(SCHEMATICS).unwrap();
    assert_eq!(locks, vec![[0, 5, 3, 4, 3], [1, 2, 0, 5, 3]]);
    assert_eq!(keys, vec![[5, 0, 2, 1, 3], [4, 3, 4, 0, 2], [3, 0, 2, 0, 1]]);
    assert_eq!(count_fitting_pairs(&keys, &locks), 3);
}

#[test]
fn locks_fit_up_to_five() {
    assert!(does_key_fit_in_lock(&[3, 0, 2, 0, 1], &[0, 5, 3, 4, 3]));
    assert!(!does_key_fit_in_lock(&[5, 0, 2, 1, 3], &[0, 5, 3, 4, 3]));
    assert!(!does_key_fit_in_lock(&[200, 0, 0, 0, 0], &[100, 0, 0, 0, 0]));
}

#[test]
fn locks_need_whole_schematics() {
    assert_eq!(solve_locks(""), Some(0));
    assert_eq!(solve_locks("#####\n.####\n"), None);
    assert_eq!(solve_locks(".....\n......#\n.....\n.....\n.....\n.....\n.....\n"), None);
    let rows: Vec<Vec<char>> = ["..#", "#.#", "", "#", "#####"].iter().map(|r| r.chars().collect()).collect();
    assert_eq!(parse_pattern(&rows, 0), Some([3, 1, 3, 1, 1]));
}
