use aoc24::trails::{solve as solve_trails, TrailMap};

const TRAILS: &str = "89010123\r\n78121874\r\n87430965\r\n96549874\r\n45678903\r\n32019012\r\n01329801\r\n10456732\r\n";

#[test]
fn trails_example_scores() {
    assert_eq!(solve_trails(TRAILS), Ok((36, 81)));
}

#[test]
fn trails_need_a_carriage_return() {
    assert_eq!(solve_trails("0123456789\n"), Err(()));
    assert_eq!(solve_trails("0123456789\r\n"), Ok((1, 1)));
    assert_eq!(solve_trails(""), Err(()));
}

#[test]
fn trails_map_is_read_row_by_row() {
    let map = TrailMap::from_str("01\r\n32\r\n").unwrap_or_else(|_| panic!("a map"));
    assert_eq!((map.rows, map.cols), (2, 2));
    assert_eq!(map.data, vec![0, 1, 3, 2]);
    assert_eq!(map.trailheads.len(), 1);
    assert_eq!((map.trailheads[0].x, map.trailheads[0].y), (0, 0));
    assert_eq!(map.find_trails_and_calculate_score(), (0, 0));
}

#[test]
fn trails_count_every_way_up() {
    let text = "0123\r\n1234\r\n8765\r\n9876\r\n";
    assert_eq!(solve_trails(text), Ok((1, 16)));
}
