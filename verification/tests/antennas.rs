use aoc24::antennas::{solve, AntennaMap, Point};
use std::collections::HashSet;

const EXAMPLE: &str = "............\n........0...\n.....0......\n.......0....\n....0.......\n......A.....\n............\n............\n........A...\n.........A..\n............\n............\n";

#[test]
fn the_example_map_has_14_and_34_antinodes() {
    assert_eq!(solve(EXAMPLE), Some((14, 34)));
}

#[test]
fn the_map_is_read_by_names() {
    let map = AntennaMap::from_string(EXAMPLE).unwrap();
    assert_eq!((map.width, map.height), (12, 12));
    assert_eq!(map.antenna_sets.len(), 2);
    assert_eq!(
        map.antenna_sets[0],
        vec![
            Point { x: 8, y: 1 },
            Point { x: 5, y: 2 },
            Point { x: 7, y: 3 },
            Point { x: 4, y: 4 }
        ]
    );
    assert_eq!(
        map.antenna_sets[1],
        vec![Point { x: 6, y: 5 }, Point { x: 8, y: 8 }, Point { x: 9, y: 9 }]
    );
}

#[test]
fn the_map_is_as_wide_as_its_last_line() {
    let map = AntennaMap::from_string("a....\n..a").unwrap();
    assert_eq!((map.width, map.height), (3, 2));
    // the antinode (4, 2) lies beside the map, and (-2, -1) does too
    assert_eq!(map.count_antinodes_at_twice_distance(), 0);
    assert_eq!(map.count_antinodes_at_any_distance(), 2);
    let map = AntennaMap::from_string("").unwrap();
    assert_eq!((map.width, map.height), (0, 0));
    assert_eq!(solve(""), Some((0, 0)));
}

#[test]
fn two_antennas_throw_two_antinodes() {
    let map = AntennaMap::from_string("..........\n..........\n..........\n....a.....\n..........\n.....a....\n..........\n..........\n..........\n..........\n").unwrap();
    let mut found: HashSet<u32> = HashSet::new();
    map.find_antinodes_at_twice_distance(&map.antenna_sets[0], &mut found);
    let mut keys: Vec<u32> = found.into_iter().collect();
    keys.sort();
    assert_eq!(keys, vec![3 * 65536 + 1, 6 * 65536 + 7]);
    let mut found: HashSet<u32> = HashSet::new();
    map.find_antinodes_at_any_distance(&map.antenna_sets[0], &mut found);
    let mut keys: Vec<u32> = found.into_iter().collect();
    keys.sort();
    assert_eq!(
        keys,
        vec![3 * 65536 + 1, 4 * 65536 + 3, 5 * 65536 + 5, 6 * 65536 + 7, 7 * 65536 + 9]
    );
}

#[test]
fn antinodes_in_a_line_of_three_ts() {
    let text = "T.........\n...T......\n.T........\n..........\n..........\n..........\n..........\n..........\n..........\n..........\n";
    let map = AntennaMap::from_string(text).unwrap();
    assert_eq!(map.count_antinodes_at_any_distance(), 9);
}

#[test]
fn places_are_tested_against_the_size() {
    let map = AntennaMap { antenna_sets: vec![], width: 3, height: 2 };
    assert!(map.is_within_bounds(0, 0));
    assert!(map.is_within_bounds(2, 1));
    assert!(!map.is_within_bounds(3, 1));
    assert!(!map.is_within_bounds(2, 2));
    assert!(!map.is_within_bounds(-1, 0));
    assert!(!map.is_within_bounds(0, -1));
}

#[test]
fn a_text_of_too_many_lines_draws_no_map() {
    let text = ".\n".repeat(32767);
    assert!(AntennaMap::from_string(&text).is_some());
    let text = ".\n".repeat(32768);
    assert!(AntennaMap::from_string(&text).is_none());
    let text = ".".repeat(32767);
    assert!(AntennaMap::from_string(&text).is_some());
    let text = ".".repeat(32768);
    assert!(AntennaMap::from_string(&text).is_none());
    assert_eq!(solve(&text), None);
}
