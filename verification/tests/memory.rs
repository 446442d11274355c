use aoc24::memory::{parse_points, solve, MemorySpace, Point, Step, EAST, NORTH, SOUTH, WEST};

const EXAMPLE: &str = "5,4\n4,2\n4,5\n3,0\n2,1\n6,3\n2,4\n1,5\n0,6\n3,3\n2,6\n5,1\n1,2\n5,5\n2,5\n6,5\n1,4\n0,4\n6,4\n1,1\n6,1\n1,0\n0,5\n1,6\n2,0\n";

#[test]
fn the_example_space_has_a_way_of_22_steps_until_6_1_falls() {
    assert_eq!(solve(EXAMPLE, 12, 6), Some((22, Point { x: 6, y: 1 })));
}

#[test]
fn the_way_is_a_shortest_one_over_safe_places() {
    let (space, rest) = MemorySpace::parse(EXAMPLE, 12, 6).unwrap();
    assert_eq!((space.width, space.height), (7, 7));
    assert_eq!(rest.len(), 13);
    assert_eq!(rest[0], Point { x: 1, y: 2 });
    let start = Point::new(0, 0);
    let end = Point::new(6, 6);
    let (distance, path) = space.find_path(&start, &end).unwrap();
    assert_eq!(distance, 22);
    assert_eq!(path.len(), 23);
    assert_eq!(path[0], start);
    assert_eq!(path[22], end);
    for pair in path.windows(2) {
        let dx = (pair[0].x - pair[1].x).abs();
        let dy = (pair[0].y - pair[1].y).abs();
        assert_eq!(dx + dy, 1);
        assert_eq!(space.is_safe(&pair[1]), Some(true));
    }
}

#[test]
fn places_are_safe_until_a_byte_falls() {
    let mut space = MemorySpace::new(3, 2);
    assert_eq!(space.is_safe(&Point::new(2, 1)), Some(true));
    assert_eq!(space.is_safe(&Point::new(3, 1)), None);
    assert_eq!(space.is_safe(&Point::new(2, 2)), None);
    assert_eq!(space.is_safe(&Point::new(-1, 0)), None);
    space.corrupt(Point::new(2, 1));
    space.corrupt(Point::new(5, 5));
    assert_eq!(space.is_safe(&Point::new(2, 1)), Some(false));
    assert_eq!(space.is_safe(&Point::new(1, 1)), Some(true));
}

#[test]
fn a_way_may_start_on_a_corrupted_place_but_not_end_on_one() {
    let mut space = MemorySpace::new(3, 1);
    space.corrupt(Point::new(0, 0));
    let found = space.find_path(&Point::new(0, 0), &Point::new(2, 0)).unwrap();
    assert_eq!(found.0, 2);
    assert_eq!(found.1, vec![Point::new(0, 0), Point::new(1, 0), Point::new(2, 0)]);
    let found = space.find_path(&Point::new(0, 0), &Point::new(0, 0)).unwrap();
    assert_eq!(found, (0, vec![Point::new(0, 0)]));
    assert!(space.find_path(&Point::new(2, 0), &Point::new(0, 0)).is_none());
    assert!(space.find_path(&Point::new(2, 0), &Point::new(3, 0)).is_none());
    assert!(space.find_path(&Point::new(2, 0), &Point::new(-1, 0)).is_none());
    space.corrupt(Point::new(1, 0));
    assert!(space.find_path(&Point::new(0, 0), &Point::new(2, 0)).is_none());
}

#[test]
fn the_first_byte_that_leaves_no_way_is_found() {
    let mut space = MemorySpace::new(3, 3);
    let start = Point::new(0, 0);
    let end = Point::new(2, 2);
    let (_, path) = space.find_path(&start, &end).unwrap();
    let bytes = vec![
        Point::new(1, 1),
        Point::new(9, 9),
        Point::new(1, 0),
        Point::new(0, 0),
        Point::new(0, 2),
        Point::new(0, 1),
        Point::new(2, 0),
    ];
    assert_eq!(space.find_blockade(path, &start, &end, bytes), Some(Point::new(0, 2)));
    assert_eq!(space.is_safe(&Point::new(0, 2)), Some(false));
    assert_eq!(space.is_safe(&Point::new(0, 1)), Some(true));
    assert_eq!(space.is_safe(&Point::new(2, 0)), Some(true));
    let mut space = MemorySpace::new(3, 3);
    let (_, path) = space.find_path(&start, &end).unwrap();
    let bytes = vec![Point::new(1, 1), Point::new(1, 0)];
    assert_eq!(space.find_blockade(path, &start, &end, bytes), None);
    assert_eq!(space.is_safe(&Point::new(1, 0)), Some(false));
}

#[test]
fn steps_lead_to_the_safe_places_around() {
    let mut space = MemorySpace::new(3, 3);
    space.corrupt(Point::new(1, 0));
    let step = Step { node: Point::new(1, 1), distance: 4, path: vec![Point::new(0, 1)] };
    let found = space.get_neighbours(step);
    let nodes: Vec<Point> = found.iter().map(|s| s.node).collect();
    assert_eq!(nodes, vec![Point::new(0, 1), Point::new(1, 2), Point::new(2, 1)]);
    assert!(found.iter().all(|s| s.distance == 5));
    assert!(found.iter().all(|s| s.path == vec![Point::new(0, 1), Point::new(1, 1)]));
    let step = Step { node: Point::new(0, 0), distance: 0, path: vec![] };
    let nodes: Vec<Point> = space.get_neighbours(step).iter().map(|s| s.node).collect();
    assert_eq!(nodes, vec![Point::new(0, 1)]);
    let p = Point::new(3, 4);
    assert_eq!(p.go(NORTH), Point::new(3, 3));
    assert_eq!(p.go(EAST), Point::new(4, 4));
    assert_eq!(p.go(SOUTH), Point::new(3, 5));
    assert_eq!(p.go(WEST), Point::new(2, 4));
}

#[test]
fn points_are_two_numbers_of_eight_bits() {
    assert_eq!(
        parse_points("1,2\n-3,+4,5\n127,-128\n"),
        Some(vec![Point::new(1, 2), Point::new(-3, 4), Point::new(127, -128)])
    );
    assert_eq!(parse_points("1,2\n128,0\n"), None);
    assert_eq!(parse_points("1,2\n0,-129\n"), None);
    assert_eq!(parse_points("1,2\n3\n"), None);
    assert_eq!(parse_points("1,2\n\n"), None);
    assert_eq!(parse_points("1, 2\n"), None);
    assert_eq!(parse_points(""), Some(vec![]));
}

#[test]
fn a_space_without_a_way_or_a_blocking_byte_has_no_answer() {
    assert_eq!(solve("1,0\n0,1\n", 2, 1), None);
    assert_eq!(solve("1,0\n0,1\n", 1, 1), Some((2, Point::new(0, 1))));
    assert_eq!(solve("1,0\n0,1\n", 0, 1), Some((2, Point::new(0, 1))));
    assert_eq!(solve("1,0\n", 0, 1), None);
    assert_eq!(solve("1,0\n0,1\n", 0, 127), None);
    assert_eq!(solve("1,0\nx\n", 0, 1), None);
    assert_eq!(solve("0,0\n", 0, 0), None);
}
