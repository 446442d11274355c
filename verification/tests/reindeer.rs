use aoc24::reindeer::{
    find_all_tiles_on_the_best_paths, find_lowest_score, get_neighbours, rotate, solve, Maze, Point,
    Step, EAST, NORTH, SOUTH, WEST,
};

const FIRST: &str = "###############\n#.......#....E#\n#.#.###.#.###.#\n#.....#.#...#.#\n#.###.#####.#.#\n#.#.#.......#.#\n#.#.#####.###.#\n#...........#.#\n###.#.#####.#.#\n#...#.....#.#.#\n#.#.#.###.#.#.#\n#.....#...#.#.#\n#.###.#.#.#.#.#\n#S..#.....#...#\n###############\n";

const SECOND: &str = "#################\n#...#...#...#..E#\n#.#.#.#.#.#.#.#.#\n#.#.#.#...#...#.#\n#.#.#.#.###.#.#.#\n#...#.#.#.....#.#\n#.#.#.#.#.#####.#\n#.#...#.#.#.....#\n#.#.#####.#.###.#\n#.#.#.......#...#\n#.#.###.#####.###\n#.#.#...#.....#.#\n#.#.#.#####.###.#\n#.#.#.........#.#\n#.#.#.#########.#\n#S#.............#\n#################\n";

#[test]
fn the_first_maze_scores_7036_over_45_tiles() {
    assert_eq!(solve(FIRST), Some((7036, 45)));
}

#[test]
fn the_second_maze_scores_11048_over_64_tiles() {
    assert_eq!(solve(SECOND), Some((11048, 64)));
}

#[test]
fn a_run_with_the_lowest_score_leads_from_the_start_to_the_end() {
    let (maze, start, end) = Maze::parse(FIRST).unwrap();
    assert_eq!(start, Point::new(1, 13));
    assert_eq!(end, Point::new(13, 1));
    let (score, path) = find_lowest_score(&maze, start, &end).unwrap();
    assert_eq!(score, 7036);
    assert_eq!(path.len(), 37);
    assert_eq!(path[0], start);
    assert_eq!(path[36], end);
    for pair in path.windows(2) {
        let dx = (pair[0].x as i32 - pair[1].x as i32).abs();
        let dy = (pair[0].y as i32 - pair[1].y as i32).abs();
        assert_eq!(dx + dy, 1);
        assert!(!maze.walls[pair[1].y as usize * 256 + pair[1].x as usize]);
    }
    let tiles = find_all_tiles_on_the_best_paths(&maze, start, end).unwrap();
    assert_eq!(tiles.len(), 45);
    assert!(path.iter().all(|p| tiles.contains(p)));
}

#[test]
fn a_turn_costs_a_thousand_points() {
    // east, then north: two steps and a turn
    assert_eq!(solve(".E\nS.\n"), Some((1002, 3)));
    // straight on to the east
    assert_eq!(solve("S..E\n"), Some((3, 4)));
    // to the west the reindeer has to go round, over the tiles above or
    // below, which are no walls
    assert_eq!(solve("...\nE.S\n"), Some((3004, 8)));
    assert_eq!(solve("....\n.E.S\n...."), Some((3004, 8)));
    // both ways round a wall have the same score
    assert_eq!(solve("...\nS#E\n...\n"), Some((3004, 8)));
    // in the first row there is one way round
    assert_eq!(solve("S#E\n"), Some((3004, 5)));
    assert_eq!(solve("S#E\n###\n"), None);
    assert_eq!(solve("SE"), Some((1, 2)));
    // the start is the end
    assert_eq!(solve("E\n"), Some((0, 1)));
    assert_eq!(solve(""), Some((0, 1)));
}

#[test]
fn steps_go_on_and_turn_to_either_side() {
    let (maze, _, _) = Maze::parse("....\n.#..\n....\n").unwrap();
    let step = Step { distance: 7, node: Point::new(2, 1), direction: EAST, path: vec![Point::new(2, 2)] };
    let found = get_neighbours(step, &maze);
    let seen: Vec<(usize, u8, u8, u8)> =
        found.iter().map(|s| (s.distance, s.node.x, s.node.y, s.direction)).collect();
    assert_eq!(seen, vec![(8, 3, 1, EAST), (1008, 2, 2, SOUTH), (1008, 2, 0, NORTH)]);
    assert!(found.iter().all(|s| s.path == vec![Point::new(2, 2), Point::new(2, 1)]));
    let step = Step { distance: 0, node: Point::new(2, 1), direction: WEST, path: vec![] };
    let found = get_neighbours(step, &maze);
    let seen: Vec<(usize, u8, u8, u8)> =
        found.iter().map(|s| (s.distance, s.node.x, s.node.y, s.direction)).collect();
    assert_eq!(seen, vec![(1001, 2, 0, NORTH), (1001, 2, 2, SOUTH)]);
    assert_eq!(rotate(&NORTH, 1), EAST);
    assert_eq!(rotate(&WEST, 1), NORTH);
    assert_eq!(rotate(&EAST, 3), NORTH);
    assert_eq!(Point::new(3, 4).apply(NORTH), Point::new(3, 3));
    assert_eq!(Point::new(3, 4).apply(EAST), Point::new(4, 4));
    assert_eq!(Point::new(3, 4).apply(SOUTH), Point::new(3, 5));
    assert_eq!(Point::new(3, 4).apply(WEST), Point::new(2, 4));
}

#[test]
fn a_text_of_too_many_lines_draws_no_maze() {
    assert!(Maze::parse(&".\n".repeat(255)).is_some());
    assert!(Maze::parse(&".\n".repeat(256)).is_none());
    assert!(Maze::parse(&".".repeat(256)).is_some());
    assert!(Maze::parse(&".".repeat(257)).is_none());
    assert_eq!(solve(&".".repeat(257)), None);
}
