use aoc24::keypad::catalog::{rank, reverse_route, reverse_routes, Keypad, KeypadError};
use aoc24::keypad::routes::{find_routes, get_neighbours, is_button_at, Work};

fn chars(text: &str) -> Vec<char> {
    text.chars().collect()
}

fn grid(rows: &[&str]) -> Vec<Vec<char>> {
    rows.iter().map(|row| row.chars().collect()).collect()
}

fn texts(routes: &Vec<Vec<char>>) -> Vec<String> {
    routes.iter().map(|route| route.iter().collect()).collect()
}

#[test]
fn routes_avoid_the_gap() {
    let numeric = grid(&["789", "456", "123", "#0A"]);
    let routes = find_routes(&numeric, 2, 3, 0, 2).unwrap();
    let mut found = texts(&routes);
    found.sort();
    assert_eq!(found, vec!["<^<", "^<<"]);
    assert!(!found.contains(&"<<^".to_string()));
}

#[test]
fn routes_between_the_same_button_are_one_empty_route() {
    let numeric = grid(&["789", "456", "123", "#0A"]);
    let routes = find_routes(&numeric, 1, 1, 1, 1).unwrap();
    assert_eq!(routes, vec![Vec::<char>::new()]);
}

#[test]
fn routes_all_have_the_manhattan_length() {
    let keypad = Keypad::numeric();
    for from in keypad.buttons.iter() {
        for (j, routes) in from.sequences_to_button.iter().enumerate() {
            let to = &keypad.buttons[j];
            let distance = from.x.abs_diff(to.x) + from.y.abs_diff(to.y);
            assert!(!routes.is_empty());
            for route in routes {
                assert_eq!(route.len(), distance);
            }
            let mut unique = texts(routes);
            unique.sort();
            unique.dedup();
            assert_eq!(unique.len(), routes.len());
        }
    }
}

#[test]
fn no_route_from_the_gap_or_over_a_wall() {
    let numeric = grid(&["789", "456", "123", "#0A"]);
    assert!(find_routes(&numeric, 0, 3, 2, 3).is_none());
    let walled = grid(&["a#b"]);
    assert!(find_routes(&walled, 0, 0, 2, 0).is_none());
    assert!(find_routes(&walled, 5, 5, 2, 0).is_none());
}

#[test]
fn neighbours_are_left_right_up_down() {
    let numeric = grid(&["789", "456", "123", "#0A"]);
    let at_five = Work { x: 1, y: 1, route: chars("^") };
    let found = get_neighbours(&at_five, &numeric);
    let places: Vec<(usize, usize, String)> =
        found.iter().map(|work| (work.x, work.y, work.route.iter().collect())).collect();
    assert_eq!(
        places,
        vec![
            (0, 1, "^<".to_string()),
            (2, 1, "^>".to_string()),
            (1, 0, "^^".to_string()),
            (1, 2, "^v".to_string())
        ]
    );
    let at_zero = Work { x: 1, y: 3, route: Vec::new() };
    let found = get_neighbours(&at_zero, &numeric);
    let places: Vec<(usize, usize)> = found.iter().map(|work| (work.x, work.y)).collect();
    assert_eq!(places, vec![(2, 3), (1, 2)]);
    assert!(is_button_at(&numeric, 1, 3));
    assert!(!is_button_at(&numeric, 0, 3));
    assert!(!is_button_at(&numeric, 3, 0));
}

#[test]
fn rank_counts_the_presses_between_the_keys() {
    assert_eq!(rank(&chars("v<<")), 3);
    assert_eq!(rank(&chars("<v<")), 4);
    assert_eq!(rank(&chars(">>^")), 4);
    assert_eq!(rank(&chars(">^>")), 6);
    assert_eq!(rank(&chars("A<")), 4);
    assert_eq!(rank(&chars("<")), 0);
}

#[test]
fn reversal_flips_and_turns_round() {
    assert_eq!(reverse_route(&chars("v<<")), chars(">>^"));
    assert_eq!(reverse_route(&chars("^>")), chars("<v"));
    assert_eq!(reverse_route(&chars("")), chars(""));
    assert_eq!(reverse_routes(&vec![chars("v<"), chars("<v")]), vec![chars(">^"), chars("^>")]);
}

#[test]
fn preferred_routes_of_the_directional_keypad() {
    let keypad = Keypad::directional();
    let best = |from: char, to: char| -> String {
        let i = keypad.find_button(from).unwrap();
        let j = keypad.find_button(to).unwrap();
        keypad.buttons[i].best_sequence_to_button[j].iter().collect()
    };
    assert_eq!(best('A', '<'), "v<<");
    assert_eq!(best('<', 'A'), ">>^");
    assert_eq!(best('A', 'v'), "v<");
    assert_eq!(best('v', 'A'), ">^");
    assert_eq!(best('^', '>'), "v>");
    assert_eq!(best('>', '^'), "<^");
    assert_eq!(best('A', 'A'), "");
}

#[test]
fn layouts_are_refused_with_their_fault() {
    assert!(matches!(Keypad::from_text(""), Err(KeypadError::Malformed)));
    assert!(matches!(Keypad::from_text("ab\nc"), Err(KeypadError::Malformed)));
    assert!(matches!(Keypad::from_text("ab\nca"), Err(KeypadError::DuplicateButton('a'))));
    assert!(matches!(Keypad::from_text("a#b"), Err(KeypadError::Unreachable('a', 'b'))));
    let keypad = Keypad::from_text("#^A\n<v>").unwrap_or_else(|_| panic!("a keypad"));
    assert_eq!(keypad.button_count(), 5);
    assert!(keypad.has_all_buttons(&chars("<v>^A")));
    assert!(!keypad.has_all_buttons(&chars("<v>^A1")));
    assert_eq!(keypad.find_button('x'), None);
    let pairs = keypad.get_button_sequences_between_buttons('A', '<');
    let mut found = texts(&pairs);
    found.sort();
    assert_eq!(found, vec!["<v<A", "v<<A"]);
    assert_eq!(texts(&keypad.get_button_sequences_between_buttons('v', 'v')), vec!["A"]);
}

#[test]
fn no_route_is_found_twice() {
    let open_grid = grid(&["abc", "def", "ghi"]);
    let routes = find_routes(&open_grid, 0, 0, 2, 2).unwrap();
    assert_eq!(routes.len(), 6);
    for (n, route) in routes.iter().enumerate() {
        assert!(!routes[n + 1..].contains(route));
    }
    let back = find_routes(&open_grid, 2, 2, 0, 0).unwrap();
    assert_eq!(back.len(), 6);
    for (n, route) in back.iter().enumerate() {
        assert!(!back[n + 1..].contains(route));
    }
}

#[test]
fn catalog_holds_every_shortest_route_once() {
    for keypad in [Keypad::numeric(), Keypad::directional()] {
        for button in keypad.buttons.iter() {
            for routes in button.sequences_to_button.iter() {
                assert!(!routes.is_empty());
                for (n, route) in routes.iter().enumerate() {
                    assert!(!routes[n + 1..].contains(route));
                    assert_eq!(route.len(), routes[0].len());
                }
            }
        }
    }
    let numeric = Keypad::numeric();
    let home = numeric.find_button('A').unwrap();
    let seven = numeric.find_button('7').unwrap();
    let two = numeric.find_button('2').unwrap();
    assert_eq!(numeric.buttons[home].sequences_to_button[seven].len(), 9);
    assert_eq!(numeric.buttons[seven].sequences_to_button[home].len(), 9);
    assert_eq!(numeric.buttons[two].sequences_to_button[seven].len(), 3);
    assert_eq!(numeric.buttons[home].sequences_to_button[home], vec![Vec::<char>::new()]);
    assert_eq!(numeric.buttons[home].best_sequence_to_button[home], Vec::<char>::new());
}
