use aoc24::regions::{solve, Garden, Point};

fn crlf(lines: &[&str]) -> String {
    let mut text = String::new();
    for line in lines {
        text.push_str(line);
        text.push_str("\r\n");
    }
    text
}

#[test]
fn the_small_garden_costs_140_and_80() {
    let text = crlf(&["AAAA", "BBCD", "BBCC", "EEEC"]);
    assert_eq!(solve(&text), Some((140, 80)));
}

#[test]
fn the_garden_of_os_and_xs_costs_772_and_436() {
    let text = crlf(&["OOOOO", "OXOXO", "OOOOO", "OXOXO", "OOOOO"]);
    assert_eq!(solve(&text), Some((772, 436)));
}

#[test]
fn the_larger_garden_costs_1930_and_1206() {
    let text = crlf(&[
        "RRRRIICCFF",
        "RRRRIICCCF",
        "VVRRRCCFFF",
        "VVRCCCJFFF",
        "VVVVCJJCFE",
        "VVIVCCJJEE",
        "VVIIICJJEE",
        "MIIIIIJJEE",
        "MIIISIJEEE",
        "MMMISSJEEE",
    ]);
    assert_eq!(solve(&text), Some((1930, 1206)));
}

#[test]
fn sides_are_counted_where_regions_touch_at_a_corner() {
    let text = crlf(&["EEEEE", "EXXXX", "EEEEE", "EXXXX", "EEEEE"]);
    assert_eq!(solve(&text).map(|p| p.1), Some(236));
    let text = crlf(&["AAAAAA", "AAABBA", "AAABBA", "ABBAAA", "ABBAAA", "AAAAAA"]);
    assert_eq!(solve(&text).map(|p| p.1), Some(368));
}

#[test]
fn a_region_has_an_area_and_a_perimeter() {
    let garden = Garden::from_str(&crlf(&["AAAA", "BBCD", "BBCC", "EEEC"])).unwrap();
    assert_eq!((garden.cols, garden.rows), (4, 4));
    let (area, perimeter, region) = garden.calculate_region(Point::new(2, 1));
    assert_eq!((area, perimeter), (4, 10));
    let mut keys: Vec<u32> = region.iter().copied().collect();
    keys.sort();
    assert_eq!(keys, vec![2 * 65536 + 1, 2 * 65536 + 2, 3 * 65536 + 2, 3 * 65536 + 3]);
    assert_eq!(garden.calculate_bulk_discount(&region), 2);
    let (area, perimeter, region) = garden.calculate_region(Point::new(3, 1));
    assert_eq!((area, perimeter, region.len()), (1, 4, 1));
    let (area, perimeter, _) = garden.calculate_region(Point::new(0, 2));
    assert_eq!((area, perimeter), (4, 8));
}

#[test]
fn plots_beside_the_garden_have_no_plant() {
    let garden = Garden::from_str(&crlf(&["AB", "CD"])).unwrap();
    assert_eq!(garden.get(&Point::new(0, 0)), Some('A'));
    assert_eq!(garden.get(&Point::new(1, 0)), Some('B'));
    assert_eq!(garden.get(&Point::new(0, 1)), Some('C'));
    assert_eq!(garden.get(&Point::new(1, 1)), Some('D'));
    assert_eq!(garden.get(&Point::new(2, 0)), None);
    assert_eq!(garden.get(&Point::new(0, 2)), None);
    assert_eq!(garden.get(&Point::new(-1, 0)), None);
    assert_eq!(garden.get(&Point::new(0, -1)), None);
    let around = Point::new(3, 4).get_neighbours();
    assert_eq!(around, [Point::new(2, 4), Point::new(4, 4), Point::new(3, 3), Point::new(3, 5)]);
}

#[test]
fn a_text_without_a_carriage_return_draws_no_garden() {
    assert!(Garden::from_str("AB\nCD\n").is_err());
    assert_eq!(solve("AB\nCD\n"), None);
    assert_eq!(solve(""), None);
}

#[test]
fn a_garden_that_lacks_plots_has_no_price() {
    assert_eq!(solve("AB\r\nC\r\n"), None);
    assert_eq!(solve("AB\r\nCD\r\n"), Some((16, 16)));
    // the plants count row by row, however the lines are broken
    assert_eq!(solve("AB\r\nC\r\nD"), None);
    assert_eq!(solve("AB\r\nCDE\r\n"), Some((16, 16)));
    assert_eq!(solve("AB\r\nABC\r\n"), Some((24, 16)));
    assert_eq!(solve("\r\n"), Some((0, 0)));
}
