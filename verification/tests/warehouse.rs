use aoc24::warehouse::{
    execute_robot_movements, execute_robot_movements_on_wide_map, move_robot_on_wide_map, parse,
    parse_wide, solve, try_move, try_move_left_wide, try_move_right_wide, try_move_up_or_down_wide,
    Beyond, Direction, Object, Point, Warehouse,
};

const SMALL: &str = "########\n#..O.O.#\n##@.O..#\n#...O..#\n#.#.O..#\n#...O..#\n#......#\n########\n\n<^^>>>vv<v>>v<<\n";

const WIDE: &str = "#######\n#...#.#\n#.....#\n#..OO@#\n#..O..#\n#.....#\n#######\n\n<vv<<^^<<^^\n";

const LARGE: &str = "##########\n#..O..O.O#\n#......O.#\n#.OO..O.O#\n#..O@..O.#\n#O#..O...#\n#O..O..O.#\n#.OO.O.OO#\n#....O...#\n##########\n\n<vv>^<v^>v>^vv^v>v<>v^v<v<^vv<<<^><<><>>v<vvv<>^v^>^<<<><<v<<<v^vv^v>^\nvvv<<^>^v^^><<>>><>^<<><^vv^^<>vvv<>><^^v>^>vv<>v<<<<v<^v>^<^^>>>^<v<v\n><>vv>v^v^<>><>>>><^^>vv>v<^^^>>v^v^<^^>v^^>v^<^v>v<>>v^v^<v>v^^<^^vv<\n<<v<^>>^^^^>>>v^<>vvv^><v<<<>^^^vv^<vvv>^>v<^^^^v<>^>vvvv><>>v^<<^^^^^\n^><^><>>><>^^<<^^v>>><^<v>^<vv>>v>>>^v><>^v><<<<v>>v<v<v>vvv>^<><<>^><\n^>><>^v<><^vvv<^^<><v<<<<<><^v<<<><<<^^<v<^^^><^>>^<v^><<<^>>^v<v^v<v^\n>^>>^v>vv>^<<^v<>><<><<v<<v><>v<^vv<<<>^^v^>^^>>><<^v>>v^v><^^>>^<>vv^\n<><^^>^^^<><vvvvv^v<v<<>^v<v>v<<^><<><<><<<^^<<<^<<>><<><^^^>^^<>^>v<>\n^^>vv<^v^v<vv>^<><v<^v>^^^>>>^^vvv^>vvv<>>>^<^>>>>>^<<^v>^vvv<>^<><<v>\nv^^>>><<^^<>>^v^<v^vv<>v^<<>^<^v^v><^<<<><<^<v><v<>vv>>v><v^<vv<>v^<<^\n";

fn object_at(warehouse: &Warehouse, x: usize, y: usize) -> Option<Object> {
    warehouse.map[y * 256 + x]
}

fn row(warehouse: &Warehouse, y: usize, width: usize) -> String {
    let mut text = String::new();
    let mut x = 1;
    while x <= width {
        match object_at(warehouse, x, y) {
            Some(Object::Wall) => text.push('#'),
            Some(Object::Box(1)) => text.push('O'),
            Some(Object::Box(_)) => {
                text.push_str("[]");
                x += 1;
            }
            None => text.push('.'),
        }
        x += 1;
    }
    text
}

#[test]
fn the_small_warehouse_sums_to_2028() {
    let (mut robot, mut warehouse, moves) = parse(SMALL).unwrap();
    assert_eq!(robot, Point::new(3, 3));
    assert_eq!((warehouse.width, warehouse.height), (8, 8));
    assert_eq!(moves.len(), 15);
    assert_eq!(execute_robot_movements(&mut robot, &mut warehouse, &moves), Some(2028));
    assert_eq!(robot, Point::new(5, 5));
    assert_eq!(row(&warehouse, 2, 8), "#....OO#");
    assert_eq!(row(&warehouse, 3, 8), "##.....#");
    assert_eq!(row(&warehouse, 4, 8), "#.....O#");
    assert_eq!(row(&warehouse, 5, 8), "#.#O...#");
    assert_eq!(row(&warehouse, 6, 8), "#...O..#");
    assert_eq!(row(&warehouse, 7, 8), "#...O..#");
}

#[test]
fn the_large_warehouse_sums_to_10092_and_9021() {
    let found = solve(LARGE).unwrap();
    assert_eq!((found.0, found.1), (10092, 9021));
    assert_eq!(found.3, Point::new(5, 8));
    assert_eq!(row(&found.2, 2, 20), "##[].......[].[][]##");
    assert_eq!(row(&found.2, 8, 20), "##.........[].[][]##");
    assert_eq!(row(&found.2, 9, 20), "##......[][]..[]..##");
}

#[test]
fn wide_boxes_push_each_other() {
    let (mut robot, mut warehouse) = parse_wide(WIDE).unwrap();
    let (_, _, moves) = parse(WIDE).unwrap();
    assert_eq!(robot, Point::new(11, 4));
    assert_eq!((warehouse.width, warehouse.height), (14, 7));
    assert_eq!(row(&warehouse, 4, 14), "##....[][]..##");
    assert_eq!(execute_robot_movements_on_wide_map(&mut robot, &mut warehouse, &moves), Some(618));
    assert_eq!(robot, Point::new(6, 3));
    assert_eq!(row(&warehouse, 2, 14), "##...[].##..##");
    assert_eq!(row(&warehouse, 3, 14), "##.....[]...##");
    assert_eq!(row(&warehouse, 4, 14), "##....[]....##");
    assert_eq!(row(&warehouse, 5, 14), "##..........##");
}

#[test]
fn a_wall_stops_the_robot_and_its_boxes() {
    let (robot, mut warehouse, _) = parse("#.OO@O#\n").unwrap();
    assert_eq!(try_move(&robot, &mut warehouse.map, &Direction::Right), Ok(None));
    assert_eq!(row(&warehouse, 1, 7), "#.OO.O#");
    assert_eq!(try_move(&robot, &mut warehouse.map, &Direction::Left), Ok(Some(Point::new(4, 1))));
    assert_eq!(row(&warehouse, 1, 7), "#OO..O#");
    assert_eq!(try_move(&Point::new(4, 1), &mut warehouse.map, &Direction::Left), Ok(None));
    assert_eq!(try_move(&robot, &mut warehouse.map, &Direction::Up), Ok(Some(Point::new(5, 0))));
    assert_eq!(try_move(&Point::new(5, 0), &mut warehouse.map, &Direction::Up), Err(Beyond));
    assert_eq!(try_move(&robot, &mut warehouse.map, &Direction::Down), Ok(Some(Point::new(5, 2))));
    // without a wall the boxes go on to the last place
    let (robot, mut warehouse, _) = parse("@O\n").unwrap();
    let mut at = robot;
    for _ in 0..253 {
        at = try_move(&at, &mut warehouse.map, &Direction::Right).unwrap().unwrap();
    }
    assert_eq!(at, Point::new(254, 1));
    assert_eq!(warehouse.map[256 + 255], Some(Object::Box(1)));
    assert_eq!(try_move(&at, &mut warehouse.map, &Direction::Right), Err(Beyond));
}

#[test]
fn wide_moves_to_the_sides() {
    let (robot, mut warehouse) = parse_wide("#.OO@O.#\n").unwrap();
    assert_eq!(robot, Point::new(9, 1));
    assert_eq!(row(&warehouse, 1, 16), "##..[][]..[]..##");
    assert_eq!(
        try_move_left_wide(&robot, &mut warehouse.map, &Direction::Left),
        Ok(Some(Point::new(8, 1)))
    );
    assert_eq!(row(&warehouse, 1, 16), "##.[][]...[]..##");
    assert_eq!(
        try_move_left_wide(&Point::new(8, 1), &mut warehouse.map, &Direction::Left),
        Ok(Some(Point::new(7, 1)))
    );
    assert_eq!(row(&warehouse, 1, 16), "##[][]....[]..##");
    assert_eq!(try_move_left_wide(&Point::new(7, 1), &mut warehouse.map, &Direction::Left), Ok(None));
    assert_eq!(
        try_move_right_wide(&Point::new(10, 1), 1, &mut warehouse.map, &Direction::Right),
        Ok(Some(Point::new(11, 1)))
    );
    assert_eq!(row(&warehouse, 1, 16), "##[][].....[].##");
    assert_eq!(
        move_robot_on_wide_map(&Point::new(11, 1), &mut warehouse.map, &Direction::Right),
        Ok(Some(Point::new(12, 1)))
    );
    assert_eq!(row(&warehouse, 1, 16), "##[][]......[]##");
    assert_eq!(
        move_robot_on_wide_map(&Point::new(12, 1), &mut warehouse.map, &Direction::Right),
        Ok(None)
    );
    assert_eq!(row(&warehouse, 1, 16), "##[][]......[]##");
}

#[test]
fn wide_moves_up_and_down() {
    let text = "######\n#....#\n#.OO.#\n#..O.#\n#..@.#\n######\n";
    let (robot, mut warehouse) = parse_wide(text).unwrap();
    assert_eq!(robot, Point::new(7, 5));
    // the box above the robot is pushed, and with it the one above it to
    // the right; the other stays
    let loads = vec![(robot, 1u8)];
    assert_eq!(
        try_move_up_or_down_wide(&loads, &mut warehouse.map, &Direction::Up),
        Ok(Some(vec![Point::new(7, 4)]))
    );
    assert_eq!(row(&warehouse, 2, 12), "##....[]..##");
    assert_eq!(row(&warehouse, 3, 12), "##..[][]..##");
    assert_eq!(row(&warehouse, 4, 12), "##........##");
    // now the wall stops both
    assert_eq!(
        move_robot_on_wide_map(&Point::new(7, 4), &mut warehouse.map, &Direction::Up),
        Ok(None)
    );
    assert_eq!(row(&warehouse, 2, 12), "##....[]..##");
    assert_eq!(row(&warehouse, 3, 12), "##..[][]..##");
    // from the right half of the box below, both boxes above it move
    assert_eq!(
        move_robot_on_wide_map(&Point::new(6, 4), &mut warehouse.map, &Direction::Up),
        Ok(Some(Point::new(6, 3)))
    );
    assert_eq!(row(&warehouse, 2, 12), "##..[][]..##");
    assert_eq!(row(&warehouse, 3, 12), "##....[]..##");
    assert_eq!(
        move_robot_on_wide_map(&Point::new(7, 4), &mut warehouse.map, &Direction::Down),
        Ok(Some(Point::new(7, 5)))
    );
    let top = Point::new(7, 0);
    assert_eq!(move_robot_on_wide_map(&top, &mut warehouse.map, &Direction::Up), Err(Beyond));
}

#[test]
fn a_text_that_cannot_be_read_has_no_answer() {
    assert!(parse("#@#\n\n<x>\n").is_none());
    assert!(parse("#@#\n\n<>\n\n^v\n").is_some());
    assert_eq!(parse("#@#\n").unwrap().2.len(), 0);
    assert!(parse(&"#".repeat(255)).is_some());
    assert!(parse(&"#".repeat(256)).is_none());
    assert!(parse_wide(&"#".repeat(127)).is_some());
    assert!(parse_wide(&"#".repeat(128)).is_none());
    assert!(parse(&"#\n".repeat(254)).is_some());
    assert!(parse(&"#\n".repeat(255)).is_none());
    assert!(solve("#@#\n\n<x>\n").is_none());
    // a box that ends in the column with the number nought has no number
    assert!(solve("O@\n\n<\n").is_none());
    let found = solve("#O@\n\n<\n").unwrap();
    assert_eq!((found.0, found.1), (1, 2));
}

#[test]
fn the_number_of_a_place_counts_from_nought() {
    assert_eq!(Point::new(1, 1).gps(), 0);
    assert_eq!(Point::new(5, 2).gps(), 104);
    assert_eq!(Point::new(255, 255).gps(), 25654);
    assert_eq!(Point::new(3, 4).get(&Direction::Up), Point::new(3, 3));
    assert_eq!(Point::new(3, 4).get(&Direction::Down), Point::new(3, 5));
    assert_eq!(Point::new(3, 4).get(&Direction::Left), Point::new(2, 4));
    assert_eq!(Point::new(3, 4).get(&Direction::Right), Point::new(4, 4));
    assert_eq!(Point::new(0, 4).try_get(&Direction::Left), None);
    let mut p = Point::new(3, 4);
    p.move_to(&Point::new(7, 8));
    assert_eq!(p, Point::new(7, 8));
}
