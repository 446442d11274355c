use aoc24::stones::{
    add_count, blink_hashmap_of_stones, blink_single_stone_using_queue, blink_stone,
    brute_force_blinking, parse_as_hashmap, parse_as_vector, smarter_blinking, solve, StoneCount,
};
use std::collections::VecDeque;

fn chars(s: &str) -> Vec<char> {
    s.chars().collect()
}

fn text(s: &Vec<char>) -> String {
    s.iter().collect()
}

#[test]
fn two_stones_become_55312_and_65601038650482() {
    assert_eq!(solve("125 17"), Some((55312, 65601038650482)));
    assert_eq!(solve("125 17\n"), Some((55312, 65601038650482)));
}

#[test]
fn six_blinks_leave_22_stones_either_way() {
    let stones = parse_as_vector("125 17").unwrap();
    assert_eq!(brute_force_blinking(&stones, 6), Some(22));
    assert_eq!(brute_force_blinking(&stones, 0), Some(2));
    assert_eq!(brute_force_blinking(&stones, 1), Some(3));
    assert_eq!(smarter_blinking(parse_as_hashmap("125 17").unwrap(), 6), Some(22));
    assert_eq!(smarter_blinking(parse_as_hashmap("125 17").unwrap(), 0), Some(2));
    assert_eq!(smarter_blinking(parse_as_hashmap("125 17").unwrap(), 25), Some(55312));
}

#[test]
fn a_stone_changes_by_its_engraving() {
    let kids = |s: &str| blink_stone(&chars(s)).map(|k| k.iter().map(text).collect::<Vec<_>>());
    assert_eq!(kids("0"), Some(vec!["1".to_string()]));
    assert_eq!(kids(""), Some(vec!["1".to_string()]));
    assert_eq!(kids("1"), Some(vec!["2024".to_string()]));
    assert_eq!(kids("10"), Some(vec!["1".to_string(), "".to_string()]));
    assert_eq!(kids("99"), Some(vec!["9".to_string(), "9".to_string()]));
    assert_eq!(kids("999"), Some(vec!["2021976".to_string()]));
    assert_eq!(kids("1000"), Some(vec!["10".to_string(), "".to_string()]));
    assert_eq!(kids("253000"), Some(vec!["253".to_string(), "".to_string()]));
    assert_eq!(kids("512072"), Some(vec!["512".to_string(), "72".to_string()]));
    assert_eq!(kids("+12"), Some(vec!["24288".to_string()]));
    assert_eq!(kids("00"), Some(vec!["0".to_string(), "".to_string()]));
    assert_eq!(kids("000"), Some(vec!["0".to_string()]));
    assert_eq!(kids("abc"), None);
    assert_eq!(kids("-12"), None);
    assert_eq!(kids("ab"), Some(vec!["a".to_string(), "b".to_string()]));
    // 9114003988986932 is the largest number whose product with 2024 fits in 64 bits
    assert_eq!(kids("9114003988986932000"), None);
    assert_eq!(kids("0009114003988986932"), Some(vec!["18446744073709550368".to_string()]));
    assert_eq!(kids("0009114003988986933"), None);
}

#[test]
fn a_stone_that_cannot_change_stops_the_count() {
    assert_eq!(brute_force_blinking(&vec![chars("1"), chars("abc")], 0), Some(2));
    assert_eq!(brute_force_blinking(&vec![chars("1"), chars("abc")], 1), None);
    assert_eq!(brute_force_blinking(&vec![chars("ab")], 1), Some(2));
    assert_eq!(brute_force_blinking(&vec![chars("ab")], 2), None);
    assert_eq!(smarter_blinking(parse_as_hashmap("1 abc").unwrap(), 0), Some(2));
    assert_eq!(smarter_blinking(parse_as_hashmap("1 abc").unwrap(), 1), None);
    assert_eq!(smarter_blinking(parse_as_hashmap("ab").unwrap(), 1), Some(2));
    assert_eq!(smarter_blinking(parse_as_hashmap("ab").unwrap(), 2), None);
    assert_eq!(solve("ab"), None);
    assert_eq!(solve("12 \u{e9}"), None);
    assert_eq!(solve(""), Some((0, 0)));
}

#[test]
fn the_queue_takes_the_new_stones_at_its_end() {
    let mut queue: VecDeque<(Vec<char>, u8)> = VecDeque::new();
    queue.push_back((chars("7"), 3));
    assert!(blink_single_stone_using_queue(&mut queue, chars("1234"), 2));
    assert!(blink_single_stone_using_queue(&mut queue, chars("0"), 5));
    assert!(!blink_single_stone_using_queue(&mut queue, chars("x"), 5));
    let seen: Vec<(String, u8)> = queue.iter().map(|(s, b)| (text(s), *b)).collect();
    assert_eq!(
        seen,
        vec![
            ("7".to_string(), 3),
            ("12".to_string(), 2),
            ("34".to_string(), 2),
            ("1".to_string(), 5)
        ]
    );
}

#[test]
fn equal_engravings_are_counted_together() {
    let stones = parse_as_hashmap("7 12 7 7 12 0").unwrap();
    let seen: Vec<(String, usize)> = stones.iter().map(|s| (text(&s.engraving), s.count)).collect();
    assert_eq!(seen, vec![("7".to_string(), 3), ("12".to_string(), 2), ("0".to_string(), 1)]);
    let next = blink_hashmap_of_stones(&stones).unwrap();
    let seen: Vec<(String, usize)> = next.iter().map(|s| (text(&s.engraving), s.count)).collect();
    assert_eq!(
        seen,
        vec![("14168".to_string(), 3), ("1".to_string(), 3), ("2".to_string(), 2)]
    );
}

#[test]
fn a_number_of_stones_that_does_not_fit_is_refused() {
    let mut stones = vec![StoneCount { engraving: chars("1"), count: usize::MAX }];
    assert!(!add_count(&mut stones, chars("1"), 1));
    assert_eq!(stones[0].count, usize::MAX);
    assert!(add_count(&mut stones, chars("2"), 1));
    assert_eq!(stones.len(), 2);
    assert_eq!(smarter_blinking(stones, 0), None);
    let stones = vec![StoneCount { engraving: chars("10"), count: usize::MAX }];
    assert_eq!(smarter_blinking(stones, 2), None);
    let stones = vec![StoneCount { engraving: chars("10"), count: usize::MAX }];
    assert!(blink_hashmap_of_stones(&stones).is_some());
    let stones = vec![StoneCount { engraving: chars("11"), count: usize::MAX }];
    assert!(blink_hashmap_of_stones(&stones).is_none());
}
