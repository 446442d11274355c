use aoc24::race::{
    find_good_cheats_2ps, find_good_cheats_with, get_2ps_cheat_destinations,
    get_cheat_destinations, solve, Point, RaceMap, Racetrack,
};

const EXAMPLE: &str = "###############\n#...#...#.....#\n#.#.#.#.#.###.#\n#S#...#.#.#...#\n#######.#.#.###\n#######.#.#...#\n#######.#.###.#\n###..E#...#...#\n###.#######.###\n#...###...#...#\n#.#####.#.###.#\n#.#...#.#.#...#\n#.#.#.#.#.#.###\n#...#...#...###\n###############\n";

fn example_track() -> Racetrack {
    let map = RaceMap::parse(EXAMPLE).unwrap();
    Racetrack::new(map.dijkstra().unwrap())
}

#[test]
fn the_example_track_takes_84_steps() {
    let map = RaceMap::parse(EXAMPLE).unwrap();
    assert_eq!((map.width, map.height), (15, 15));
    assert_eq!(map.start, Point { x: 1, y: 3 });
    assert_eq!(map.end, Point { x: 5, y: 7 });
    let path = map.dijkstra().unwrap();
    assert_eq!(path.len(), 85);
    assert_eq!(path[0], map.start);
    assert_eq!(path[84], map.end);
    let track = Racetrack::new(path);
    assert_eq!(track.len(), 85);
    assert_eq!(track.get(1, 3), Some(0));
    assert_eq!(track.get(1, 2), Some(1));
    assert_eq!(track.get(5, 7), Some(84));
    assert_eq!(track.get(0, 0), None);
    assert_eq!(track.get(-1, 3), None);
    assert_eq!(track.get(40000, 3), None);
}

#[test]
fn cheats_of_two_steps_on_the_example_track() {
    let track = example_track();
    assert_eq!(find_good_cheats_2ps(&track, 64), Some(1));
    assert_eq!(find_good_cheats_2ps(&track, 65), Some(0));
    assert_eq!(find_good_cheats_2ps(&track, 40), Some(2));
    assert_eq!(find_good_cheats_2ps(&track, 20), Some(5));
    assert_eq!(find_good_cheats_2ps(&track, 12), Some(8));
    assert_eq!(find_good_cheats_2ps(&track, 10), Some(10));
    assert_eq!(find_good_cheats_2ps(&track, 8), Some(14));
    assert_eq!(find_good_cheats_2ps(&track, 6), Some(16));
    assert_eq!(find_good_cheats_2ps(&track, 4), Some(30));
    assert_eq!(find_good_cheats_2ps(&track, 2), Some(44));
    assert_eq!(find_good_cheats_2ps(&track, 85), Some(0));
    assert_eq!(find_good_cheats_2ps(&track, 86), None);
}

#[test]
fn cheats_of_twenty_steps_on_the_example_track() {
    let track = example_track();
    assert_eq!(find_good_cheats_with(&track, 76, 20), Some(3));
    assert_eq!(find_good_cheats_with(&track, 74, 20), Some(7));
    assert_eq!(find_good_cheats_with(&track, 72, 20), Some(29));
    assert_eq!(find_good_cheats_with(&track, 50, 20), Some(285));
    assert_eq!(find_good_cheats_with(&track, 64, 2), Some(1));
    assert_eq!(find_good_cheats_with(&track, 2, 2), Some(44));
    assert_eq!(find_good_cheats_with(&track, 2, 0), Some(0));
    assert_eq!(find_good_cheats_with(&track, 86, 20), None);
}

#[test]
fn the_example_track_is_too_short_for_the_answer() {
    assert_eq!(solve(EXAMPLE), None);
    assert_eq!(solve(""), None);
}

#[test]
fn a_long_track_has_an_answer() {
    // a track that winds through a square of 25 rows, with walls of one
    // place between its lanes
    let side = 25;
    let mut rows: Vec<Vec<char>> = vec![vec!['#'; side]; side];
    for y in (1..side - 1).step_by(2) {
        for x in 1..side - 1 {
            rows[y][x] = '.';
        }
    }
    for (n, y) in (2..side - 1).step_by(2).enumerate() {
        let x = if n % 2 == 0 { side - 2 } else { 1 };
        rows[y][x] = '.';
    }
    rows[1][1] = 'S';
    rows[side - 2][side - 2] = 'E';
    let text: String = rows.iter().map(|r| r.iter().collect::<String>() + "\n").collect();
    let map = RaceMap::parse(&text).unwrap();
    let path = map.dijkstra().unwrap();
    // eleven lanes and the walls between them, and the end of the twelfth
    assert_eq!(path.len(), 11 * 23 + 11 + 1);
    let found = solve(&text).unwrap();
    assert!(found.0 == 0);
    assert!(found.1 > 0);
    let track = Racetrack::new(path);
    // through the wall between two lanes, from the start of the one to
    // where the next ends: 46 steps become 2, and one place on 44 become 2
    assert_eq!(find_good_cheats_2ps(&track, 45), Some(0));
    assert_eq!(find_good_cheats_2ps(&track, 44), Some(10));
    assert_eq!(find_good_cheats_2ps(&track, 42), Some(20));
}

#[test]
fn no_way_gives_no_track() {
    let map = RaceMap::parse("S#E\n...\n###\n").unwrap();
    assert_eq!(map.dijkstra().unwrap().len(), 5);
    let map = RaceMap::parse("S#E\n.#.\n###\n").unwrap();
    assert!(map.dijkstra().is_none());
    // the map is a square of as many columns as rows
    let map = RaceMap::parse("S.E\n").unwrap();
    assert_eq!((map.width, map.height), (1, 1));
    assert_eq!(map.is_safe(&Point { x: 0, y: 0 }), Some(true));
    assert_eq!(map.is_safe(&Point { x: 1, y: 0 }), None);
    assert!(map.dijkstra().is_none());
    // without an S the race starts in the first place, wall or not
    let map = RaceMap::parse("#.\n.E\n").unwrap();
    assert_eq!(map.start, Point { x: 0, y: 0 });
    assert_eq!(map.dijkstra().unwrap().len(), 3);
}

#[test]
fn cheats_lead_to_the_places_around() {
    let around = get_2ps_cheat_destinations(&Point { x: 5, y: 7 });
    assert_eq!(
        around,
        [
            Point { x: 3, y: 7 },
            Point { x: 7, y: 7 },
            Point { x: 5, y: 5 },
            Point { x: 5, y: 9 }
        ]
    );
    let two = get_cheat_destinations(&Point { x: 5, y: 7 }, 2);
    let seen: Vec<(i32, i32, usize)> = two.iter().map(|c| (c.x, c.y, c.time)).collect();
    assert_eq!(seen, vec![(3, 7, 2), (5, 5, 2), (7, 7, 2), (5, 9, 2)]);
    assert!(get_cheat_destinations(&Point { x: 5, y: 7 }, 1).is_empty());
    assert!(get_cheat_destinations(&Point { x: 5, y: 7 }, 0).is_empty());
    let three = get_cheat_destinations(&Point { x: 0, y: 0 }, 3);
    assert_eq!(three.len(), 4 + 12);
    assert!(three.iter().all(|c| (c.x.abs() + c.y.abs()) as usize == c.time));
    let twenty = get_cheat_destinations(&Point { x: 0, y: 0 }, 20);
    assert_eq!(twenty.len(), 4 * (20 * 21 / 2) - 8);
}
