use aoc24::guard_baseline::{solve as solve_baseline, Guard as WideGuard, Lab as WideLab, Point as WidePoint, WalkOutcome as WideOutcome};

const WIDE_EXAMPLE: &str = "....#.....\n.........#\n..........\n..#.......\n.......#..\n..........\n.#..^.....\n........#.\n#.........\n......#...\n";

#[test]
fn baseline_example_counts_the_start_once_more() {
    assert_eq!(solve_baseline(WIDE_EXAMPLE), Ok((42, 6)));
}

#[test]
fn baseline_without_a_start_leaves_at_once() {
    assert_eq!(solve_baseline("...\n...\n"), Ok((1, 0)));
}

#[test]
fn baseline_takes_lines_of_300() {
    let mut text = ".".repeat(300);
    text.push('\n');
    text.push_str(&".".repeat(299));
    text.push('^');
    assert_eq!(solve_baseline(&text), Ok((2, 0)));
    let too_long = ".".repeat(32768);
    assert_eq!(solve_baseline(&too_long), Err(()));
}

#[test]
fn baseline_steps_and_turns() {
    let sum = WidePoint { x: 3, y: 0 }.add(WidePoint { x: 0, y: -1 });
    assert_eq!((sum.x, sum.y), (3, -1));
    let wrapped = WidePoint { x: i16::MAX, y: 0 }.add(WidePoint { x: 1, y: 0 });
    assert_eq!((wrapped.x, wrapped.y), (i16::MIN, 0));
    assert_eq!(WidePoint { x: 2, y: 1 }.key(), 32770);
    let mut guard = WideGuard { location: WidePoint { x: 1, y: 1 }, direction_index: 3 };
    let left = guard.get_direction();
    assert_eq!((left.x, left.y), (-1, 0));
    guard.rotate();
    assert_eq!(guard.direction_index, 0);
    let up = guard.get_direction();
    assert_eq!((up.x, up.y), (0, -1));
    guard.move_to(WidePoint { x: 5, y: 6 });
    assert_eq!((guard.location.x, guard.location.y), (5, 6));
}

#[test]
fn baseline_walks_until_she_is_stopped() {
    let mut lab = WideLab::from_str(WIDE_EXAMPLE).unwrap_or_else(|_| panic!("a lab"));
    assert!(lab.is_out_of_bounds(&WidePoint { x: -1, y: 0 }));
    assert!(lab.is_out_of_bounds(&WidePoint { x: 0, y: 10 }));
    assert!(matches!(lab.walk_straight(), WideOutcome::Obstructed));
    assert_eq!((lab.guard.location.x, lab.guard.location.y), (4, 1));
    assert!(lab.was_visited_before(&WidePoint { x: 4, y: 3 }, &0));
    lab.guard.rotate();
    assert!(matches!(lab.do_guard_walking(), WideOutcome::LeftMappedArea));
    assert_eq!(lab.path.len(), 41);
}
