use aoc24::guard::{solve, Guard, Lab, Point, WalkOutcome};

const EXAMPLE: &str = "....#.....\n.........#\n..........\n..#.......\n.......#..\n..........\n.#..^.....\n........#.\n#.........\n......#...\n";

#[test]
fn guard_example_counts_the_start_once_more() {
    assert_eq!(solve(EXAMPLE), Ok((42, 6)));
}

#[test]
fn guard_without_a_start_leaves_at_once() {
    assert_eq!(solve("...\n...\n"), Ok((1, 0)));
    assert_eq!(solve(""), Ok((1, 0)));
}

#[test]
fn guard_map_may_not_be_too_large() {
    let long_line = ".".repeat(256);
    assert_eq!(solve(&long_line), Err(()));
    let many_lines = ".\n".repeat(256);
    assert_eq!(solve(&many_lines), Err(()));
    let just_right = ".\n".repeat(255);
    assert_eq!(solve(&just_right), Ok((1, 0)));
}

#[test]
fn guard_steps_and_turns() {
    let north = Point { x: 3, y: 0 }.apply(0);
    assert_eq!((north.x, north.y), (3, 255));
    let east = Point { x: 3, y: 0 }.apply(1);
    assert_eq!((east.x, east.y), (4, 0));
    let south = Point { x: 3, y: 0 }.apply(2);
    assert_eq!((south.x, south.y), (3, 1));
    let west = Point { x: 0, y: 7 }.apply(3);
    assert_eq!((west.x, west.y), (255, 7));
    assert_eq!(Point { x: 2, y: 1 }.key(), 258);
    let mut guard = Guard { location: Point { x: 1, y: 1 }, direction: 3 };
    guard.rotate();
    assert_eq!(guard.direction, 0);
    guard.move_to(Point { x: 5, y: 6 });
    assert_eq!((guard.location.x, guard.location.y, guard.direction), (5, 6, 0));
}

#[test]
fn guard_walks_until_she_is_stopped() {
    let mut lab = Lab::from_str(EXAMPLE).unwrap_or_else(|_| panic!("a lab"));
    assert_eq!((lab.width, lab.height), (10, 10));
    assert_eq!((lab.guard.location.x, lab.guard.location.y), (4, 6));
    assert!(lab.is_out_of_bounds(&Point { x: 10, y: 0 }));
    assert!(!lab.is_out_of_bounds(&Point { x: 9, y: 9 }));
    assert!(matches!(lab.walk_straight(), WalkOutcome::Obstructed));
    assert_eq!((lab.guard.location.x, lab.guard.location.y), (4, 1));
    assert_eq!(lab.path.len(), 5);
    assert!(lab.was_visited_before(&Point { x: 4, y: 3 }, &0));
    assert!(!lab.was_visited_before(&Point { x: 4, y: 3 }, &1));
    lab.guard.rotate();
    assert!(matches!(lab.do_guard_walking(), WalkOutcome::LeftMappedArea));
    assert_eq!(lab.path.len(), 41);
}

#[test]
fn guard_shut_in_walks_in_a_loop() {
    let mut lab = Lab::from_str(".#.\n#^#\n.#.\n").unwrap_or_else(|_| panic!("a lab"));
    assert!(matches!(lab.do_guard_walking(), WalkOutcome::InALoop));
    assert_eq!(lab.path.len(), 0);
}
