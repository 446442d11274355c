use aoc24::pages::order::compare;
use aoc24::pages::{get_middle_page_number, is_in_order, is_sorted, parse, solve, sort_update, Rule};
use std::cmp::Ordering;

const EXAMPLE: &str = "47|53\n97|13\n97|61\n97|47\n75|29\n61|13\n75|53\n29|13\n97|29\n53|29\n61|53\n97|53\n61|29\n47|13\n75|47\n97|75\n47|61\n75|61\n47|29\n75|13\n53|13\n\n75,47,61,53,29\n97,61,53,29,13\n75,29,13\n75,97,47,61,53\n61,13,29\n97,13,75,29,47\n";

#[test]
fn the_example_sums_to_143_and_123() {
    assert_eq!(solve(EXAMPLE), Some((143, 123)));
}

#[test]
fn the_example_has_21_rules_and_6_updates() {
    let (rules, updates) = parse(EXAMPLE).unwrap();
    assert_eq!(rules.len(), 21);
    assert_eq!(updates.len(), 6);
    assert_eq!(updates[0], vec![75, 47, 61, 53, 29]);
    assert_eq!(updates[5], vec![97, 13, 75, 29, 47]);
    assert_eq!((rules[0].before, rules[0].after), (47, 53));
}

#[test]
fn a_rule_that_stands_twice_moves_the_first_update_up() {
    // two lines give one rule, so the updates begin on the empty line,
    // which writes no update
    assert!(parse("47|53\n47|53\n\n47,53\n").is_none());
    let (rules, updates) = parse("47|53\n47|53\n47,53\n").unwrap();
    assert_eq!(rules.len(), 1);
    assert_eq!(updates, vec![vec![47, 53]]);
}

#[test]
fn lines_that_write_no_pages_are_refused() {
    assert_eq!(solve("4x|53\n\n47,53\n"), None);
    assert_eq!(solve("47|53\n\n47,5\n"), None);
    assert_eq!(solve("47|53\n\n47,53,\n"), None);
    assert_eq!(solve("47|-3\n\n47,53\n"), None);
    assert_eq!(solve("47|300\n\n47,53\n"), None);
    assert_eq!(solve("47|53\n\n47,53\n\n"), None);
}

#[test]
fn a_rule_may_end_in_a_long_page() {
    let (rules, updates) = parse("47|+099\n").unwrap();
    assert_eq!((rules[0].before, rules[0].after), (47, 99));
    assert!(updates.is_empty());
}

#[test]
fn no_text_gives_no_sums() {
    assert_eq!(solve(""), Some((0, 0)));
}

#[test]
fn pages_compare_by_the_rules() {
    let rules = vec![Rule { before: 1, after: 2 }];
    assert!(is_sorted(&rules, 1, 2));
    assert!(!is_sorted(&rules, 2, 1));
    assert!(is_sorted(&rules, 3, 4));
    assert!(is_sorted(&rules, 4, 3));
    assert_eq!(compare(&rules, 1, 2), Ordering::Less);
    assert_eq!(compare(&rules, 2, 1), Ordering::Greater);
    assert_eq!(compare(&rules, 2, 2), Ordering::Equal);
    assert_eq!(compare(&rules, 7, 3), Ordering::Less);
}

#[test]
fn sorting_puts_each_page_before_those_it_goes_before() {
    let (rules, updates) = parse(EXAMPLE).unwrap();
    assert!(is_in_order(&rules, &updates[0]));
    assert!(!is_in_order(&rules, &updates[3]));
    assert_eq!(sort_update(&rules, &updates[3]), vec![97, 75, 47, 61, 53]);
    assert_eq!(sort_update(&rules, &updates[4]), vec![61, 29, 13]);
    assert_eq!(sort_update(&rules, &updates[5]), vec![97, 75, 47, 29, 13]);
    assert_eq!(get_middle_page_number(&updates[0]), 61);
    assert_eq!(get_middle_page_number(&vec![1, 2]), 2);
}

#[test]
fn sums_beyond_16_bits_are_refused() {
    let mut text = String::from("\n");
    for _ in 0..662 {
        text.push_str("99\n");
    }
    assert_eq!(solve(&text), None);
    let mut text = String::from("\n");
    for _ in 0..661 {
        text.push_str("99\n");
    }
    assert_eq!(solve(&text), Some((65439, 0)));
}
