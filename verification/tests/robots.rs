use aoc24::robots::{calculate_safety_factor, find_easter_egg, parse as parse_robots, solve as solve_robots};

#[test]
fn robots_are_read_with_raised_speed() {
    let robots = parse_robots("p=0,4 v=3,-3\np=100,102 v=-1,2\n").unwrap();
    assert_eq!(robots.len(), 2);
    assert_eq!((robots[0].location.x, robots[0].location.y), (0, 4));
    assert_eq!((robots[0].vector.x, robots[0].vector.y), (104, 100));
    assert_eq!((robots[1].vector.x, robots[1].vector.y), (100, 105));
    assert!(parse_robots("p=0,4 v=3\n").is_none());
    assert!(parse_robots("p=-1,4 v=3,3\n").is_none());
    assert!(parse_robots("p=1,4 v=-102,3\n").is_none());
}

#[test]
fn robots_are_counted_by_quadrant() {
    let robots = parse_robots("p=0,0 v=1,1\np=0,102 v=1,-1\np=100,0 v=-1,1\np=100,102 v=-1,-1\np=50,51 v=0,0\n").unwrap();
    assert_eq!(calculate_safety_factor(&robots, 0), Some(1));
    assert_eq!(calculate_safety_factor(&robots, 10), Some(1));
    assert_eq!(calculate_safety_factor(&robots, 50), Some(0));
    let pair = parse_robots("p=0,0 v=0,0\np=1,1 v=0,0\n").unwrap();
    assert_eq!(calculate_safety_factor(&pair, 100), Some(0));
}

#[test]
fn robots_come_apart() {
    let mut robots = parse_robots("p=0,0 v=1,0\np=2,0 v=0,0\np=1,0 v=1,0\n").unwrap();
    assert_eq!(find_easter_egg(&mut robots), Some(3));
    assert_eq!((robots[0].location.x, robots[2].location.x), (3, 4));
    let mut stuck = parse_robots("p=0,0 v=1,0\np=0,0 v=1,0\n").unwrap();
    assert_eq!(find_easter_egg(&mut stuck), None);
    let (factor, second, left) = solve_robots("p=0,0 v=1,0\np=5,5 v=0,0\n").unwrap();
    assert_eq!((factor, second, left.len()), (0, 1, 2));
}
