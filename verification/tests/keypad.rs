use aoc24::keypad::catalog::Keypad;
use aoc24::keypad::codes::{
    calculate_complexity, calculate_complexity_for_numeric_codes,
    calculate_complexity_for_numeric_codes_with_two_directional_keypads, is_code_shaped, score_of,
    solve, sum_of_scores, CodeError,
};
use aoc24::keypad::counting::{
    get_min_presses_for_numeric_code_with_directional_keypads,
    get_min_presses_for_numeric_code_with_two_directional_keypads,
    update_sub_sequence_count_with_sequence, SequenceMemo, SubSequenceCounts,
};
use aoc24::keypad::presses::{get_min_button_presses_for_numeric_code, PressCache};

fn chars(text: &str) -> Vec<char> {
    text.chars().collect()
}

fn text(chars: &Vec<char>) -> String {
    chars.iter().collect()
}

fn min_presses(code: &str, robots: u8, directional: &Keypad, numeric: &Keypad) -> u64 {
    let mut cache = PressCache::new();
    get_min_button_presses_for_numeric_code(numeric, directional, &chars(code), robots, &mut cache)
}

fn get_inputs_for_last_robot(input: &str) -> (Vec<String>, usize) {
    let directional = Keypad::directional();
    let numeric = Keypad::numeric();
    let routes = numeric.find_all_sequences(&chars(input));

    let mut routes2 = Vec::new();
    let mut min_length = usize::MAX;
    for route_input in routes.iter() {
        let new_routes = directional.find_all_sequences(route_input);
        new_routes.into_iter().for_each(|s| {
            if s.len() <= min_length {
                min_length = s.len();
                routes2.push(s)
            }
        });
    }
    routes2 = routes2.into_iter().filter(|s| s.len() <= min_length).collect();

    let mut routes3 = Vec::new();
    let mut min_length = usize::MAX;
    for route_input in routes2.iter() {
        let new_routes = directional.find_all_sequences(route_input);
        new_routes.into_iter().for_each(|s| {
            if s.len() <= min_length {
                min_length = s.len();
                routes3.push(text(&s))
            }
        });
    }
    routes3 = routes3.into_iter().filter(|s| s.len() <= min_length).collect();
    (routes3, min_length)
}

#[test]
fn check_numeric_keypad() {
    let keypad = Keypad::numeric();
    assert_eq!(keypad.buttons.len(), 11);
    assert_eq!(keypad.button_count(), 11);
    for (number, button) in keypad.buttons.iter().enumerate() {
        assert_eq!(button.sequences_to_button.len() - 1, 10);
        assert_eq!(button.best_sequence_to_button.len() - 1, 10);
        for (other, routes) in button.sequences_to_button.iter().enumerate() {
            if other == number {
                assert_eq!(routes, &vec![Vec::<char>::new()]);
            } else {
                assert!(!routes.is_empty());
                assert!(routes.iter().all(|route| !route.is_empty()));
            }
        }
    }
}

#[test]
fn check_directional_keypad() {
    let keypad = Keypad::directional();
    assert_eq!(keypad.buttons.len(), 5);
    for (number, button) in keypad.buttons.iter().enumerate() {
        assert_eq!(button.sequences_to_button.len() - 1, 4);
        assert_eq!(button.best_sequence_to_button.len() - 1, 4);
        for (other, routes) in button.sequences_to_button.iter().enumerate() {
            if other == number {
                assert_eq!(routes, &vec![Vec::<char>::new()]);
            } else {
                assert!(!routes.is_empty());
                assert!(routes.iter().all(|route| !route.is_empty()));
            }
        }
    }
}

#[test]
fn first_example_029a_3_routes() {
    let input = "029A";
    let expected = ["<A^A>^^AvvvA", "<A^A^>^AvvvA", "<A^A^^>AvvvA"];
    let keypad = Keypad::numeric();

    let routes = keypad.find_all_sequences(&chars(input));

    assert_eq!(routes.len(), 3);
    for route in expected {
        assert!(routes.contains(&chars(route)));
    }
    println!("{:#?}", routes);
}

#[test]
fn third_example_029a_3_robots() {
    let numeric = Keypad::numeric();
    let directional = Keypad::directional();

    let input = "029A";
    let expected =
        "<vA<AA>>^AvAA<^A>A<v<A>>^AvA^A<vA>^A<v<A>^A>AAvA^A<v<A>A>^AAAvA<^A>A".to_string();
    let (routes, _) = get_inputs_for_last_robot(input);
    let min_length = min_presses(input, 2, &directional, &numeric);
    assert!(routes.contains(&expected));
    assert_eq!(min_length, expected.len() as u64);

    let input = "980A";
    let expected = "<v<A>>^AAAvA^A<vA<AA>>^AvAA<^A>A<v<A>A>^AAAvA<^A>A<vA>^A<A>A".to_string();
    let (routes, _) = get_inputs_for_last_robot(input);
    let min_length = min_presses(input, 2, &directional, &numeric);
    assert!(routes.contains(&expected));
    assert_eq!(min_length, expected.len() as u64);

    let input = "179A";
    let expected =
        "<v<A>>^A<vA<A>>^AAvAA<^A>A<v<A>>^AAvA^A<vA>^AA<A>A<v<A>A>^AAAvA<^A>A".to_string();
    let (routes, _) = get_inputs_for_last_robot(input);
    let min_length = min_presses(input, 2, &directional, &numeric);
    assert!(routes.contains(&expected));
    assert_eq!(min_length, expected.len() as u64);

    let input = "456A";
    let expected = "<v<A>>^AA<vA<A>>^AAvAA<^A>A<vA>^A<A>A<vA>^A<A>A<v<A>A>^AAvA<^A>A".to_string();
    let (routes, _) = get_inputs_for_last_robot(input);
    let min_length = min_presses(input, 2, &directional, &numeric);
    assert!(routes.contains(&expected));
    assert_eq!(min_length, expected.len() as u64);

    let input = "379A";
    let expected = "<v<A>>^AvA^A<vA<AA>>^AAvA<^A>AAvA^A<vA>^AA<A>A<v<A>A>^AAAvA<^A>A".to_string();
    let (routes, _) = get_inputs_for_last_robot(input);
    let min_length = min_presses(input, 2, &directional, &numeric);
    assert!(routes.contains(&expected));
    assert_eq!(min_length, expected.len() as u64);
}

#[test]
fn find_paths_with_cache_experiment() {
    let input = "029A\n980A\n179A\n456A\n379A\n671A\n826A\n670A\n085A\n283A";
    let numeric = Keypad::numeric();
    let directional = Keypad::directional();

    let lines = input.lines();
    for line in lines {
        let min_length = min_presses(line, 17, &directional, &numeric);
        let score = calculate_complexity(line, min_length);
        assert!(matches!(score, Ok(_)));
    }
}

#[test]
fn complexity_check() {
    let input = "029A";
    let route = "<vA<AA>>^AvAA<^A>A<v<A>>^AvA^A<vA>^A<v<A>^A>AAvA^A<v<A>A>^AAAvA<^A>A";

    let score = calculate_complexity(input, route.len() as u64);

    assert!(matches!(score, Ok(1972)));
    assert_eq!(68 * 29, 1972);
}

#[test]
fn complexity_needs_digits_and_a_press() {
    assert!(matches!(calculate_complexity("029", 68), Err(CodeError::Malformed)));
    assert!(matches!(calculate_complexity("A", 68), Err(CodeError::Malformed)));
    assert!(matches!(calculate_complexity("0x9A", 68), Err(CodeError::Malformed)));
    assert!(matches!(calculate_complexity("3A", 2), Ok(6)));
    assert!(matches!(calculate_complexity("2A", u64::MAX), Err(CodeError::TooLarge)));
}

#[test]
fn test_a_25_robots() {
    let result = min_presses("A", 20, &Keypad::directional(), &Keypad::numeric());
    assert_eq!(result, 1);
}

#[test]
fn test_3a_25_robots2() {
    let mut cache = SequenceMemo::new();
    let result = get_min_presses_for_numeric_code_with_directional_keypads(
        &Keypad::numeric(),
        &Keypad::directional(),
        &chars("3A"),
        25,
        &mut cache,
    );
    assert_eq!(result, 57870179098);
}

#[test]
fn second_example_029a_2_robots() {
    let input = "029A";
    let expected = "v<<A>>^A<A>AvA<^AA>A<vAAA>^A".to_string();

    let dir_control_num = Keypad::directional();
    let numeric = Keypad::numeric();
    let routes = numeric.find_all_sequences(&chars(input));

    let mut cache = SequenceMemo::new();
    for route_input in routes.iter().skip(2).take(1) {
        println!("Proccesing: {}", text(route_input));

        let mut input2 = SubSequenceCounts::new();
        update_sub_sequence_count_with_sequence(&mut input2, route_input.clone(), 1u64);

        let best_route = dir_control_num
            .get_sub_sequences_for_next_robot(input2, &mut cache)
            .unwrap();

        let actual: u64 = best_route
            .entries
            .iter()
            .map(|entry| (entry.sub_sequence.len() + 1) as u64 * entry.count)
            .sum();
        assert_eq!(actual, expected.len() as u64);
        assert_eq!(best_route.total_presses(), Some(28));
    }
}

#[test]
fn code_029a_through_two_keypads_costs_68_presses() {
    let numeric = Keypad::numeric();
    let directional = Keypad::directional();
    assert_eq!(min_presses("029A", 2, &directional, &numeric), 68);
    let mut memo = SequenceMemo::new();
    assert_eq!(
        get_min_presses_for_numeric_code_with_two_directional_keypads(
            &numeric,
            &directional,
            &chars("029A"),
            &mut memo
        ),
        68
    );
    assert!(matches!(calculate_complexity("029A", 68), Ok(1972)));
}

#[test]
fn code_029a_through_25_keypads() {
    let numeric = Keypad::numeric();
    let directional = Keypad::directional();
    assert_eq!(min_presses("029A", 25, &directional, &numeric), 82050061710);
}

#[test]
fn totals_of_the_five_example_codes() {
    let numeric = Keypad::numeric();
    let directional = Keypad::directional();
    let codes = "029A\n980A\n179A\n456A\n379A";
    assert!(matches!(
        calculate_complexity_for_numeric_codes(&numeric, &directional, codes, 2),
        Ok(126384)
    ));
    assert!(matches!(
        calculate_complexity_for_numeric_codes_with_two_directional_keypads(
            &numeric,
            &directional,
            codes
        ),
        Ok(126384)
    ));
    assert!(matches!(
        calculate_complexity_for_numeric_codes(&numeric, &directional, codes, 25),
        Ok(154115708116294)
    ));
    assert!(matches!(solve(codes), Ok((126384, 154115708116294))));
    let sum: u64 = [("029A", 29u64), ("980A", 980), ("179A", 179), ("456A", 456), ("379A", 379)]
        .iter()
        .map(|(code, value)| min_presses(code, 2, &directional, &numeric) * value)
        .sum();
    assert_eq!(sum, 126384);
}

#[test]
fn codes_with_unknown_buttons_are_refused() {
    let numeric = Keypad::numeric();
    let directional = Keypad::directional();
    assert!(matches!(
        calculate_complexity_for_numeric_codes(&numeric, &directional, "029A\n0x1A", 2),
        Err(CodeError::Malformed)
    ));
    assert!(matches!(solve("12"), Err(CodeError::Malformed)));
    assert!(matches!(solve(""), Ok((0, 0))));
}

#[test]
fn depth_zero_costs_the_length() {
    let directional = Keypad::directional();
    let mut cache = PressCache::new();
    let sequence = chars("<A^A>^^AvvvA");
    assert_eq!(directional.find_min_button_presses(&sequence, 0, &mut cache), 12);
    assert_eq!(cache.len(), 0);
}

#[test]
fn staying_on_a_button_costs_one_press() {
    let directional = Keypad::directional();
    for depth in 0..=25u8 {
        let mut cache = PressCache::new();
        assert_eq!(directional.find_min_button_presses(&chars("A"), depth, &mut cache), 1);
        let mut cache = PressCache::new();
        let twice = directional.find_min_button_presses(&chars("<<A"), depth, &mut cache);
        let mut cache = PressCache::new();
        let once = directional.find_min_button_presses(&chars("<A"), depth, &mut cache);
        assert_eq!(twice, once + 1);
    }
}

#[test]
fn evaluating_twice_gives_the_same_and_adds_nothing() {
    let directional = Keypad::directional();
    let mut cache = PressCache::new();
    let sequence = chars("<A^A>^^AvvvA");
    let first = directional.find_min_button_presses(&sequence, 3, &mut cache);
    let entries = cache.len();
    let second = directional.find_min_button_presses(&sequence, 3, &mut cache);
    assert_eq!(first, second);
    assert_eq!(cache.len(), entries);
    assert_eq!(cache.get(&sequence, 3), Some(first));
    let held = cache
        .entries
        .iter()
        .filter(|entry| entry.sequence == sequence && entry.depth == 3)
        .count();
    assert_eq!(held, 1);
}

#[test]
fn cost_does_not_fall_with_depth() {
    let directional = Keypad::directional();
    let sequence = chars("<A^A>^^AvvvA");
    let mut last = 0;
    for depth in 0..=25u8 {
        let mut cache = PressCache::new();
        let cost = directional.find_min_button_presses(&sequence, depth, &mut cache);
        assert!(cost >= last);
        last = cost;
    }
    let mut cache = PressCache::new();
    assert_eq!(directional.find_min_button_presses(&chars("A"), 0, &mut cache), 1);
}

#[test]
fn cost_is_capped_where_it_does_not_fit() {
    let directional = Keypad::directional();
    let mut cache = PressCache::new();
    let sequence = chars("<A^A>^^AvvvA");
    assert_eq!(directional.find_min_button_presses(&sequence, 60, &mut cache), u64::MAX);
}

#[test]
fn depth_zero_costs_the_length_on_any_keypad() {
    let numeric = Keypad::numeric();
    let mut cache = PressCache::new();
    assert_eq!(numeric.find_min_button_presses(&chars("029A"), 0, &mut cache), 4);
    assert_eq!(numeric.find_min_button_presses(&chars("<A^A>^^AvvvA"), 0, &mut cache), 12);
    assert_eq!(numeric.find_min_button_presses(&chars(""), 0, &mut cache), 0);
    assert_eq!(cache.len(), 0);
}

#[test]
fn one_keypad_costs_the_moves_and_the_presses() {
    let numeric = Keypad::numeric();
    let mut cache = PressCache::new();
    assert_eq!(numeric.find_min_button_presses(&chars("029A"), 1, &mut cache), 12);
    assert_eq!(cache.len(), 1);
    let directional = Keypad::directional();
    let mut cache = PressCache::new();
    assert_eq!(directional.find_min_button_presses(&chars("<A"), 1, &mut cache), 8);
    assert_eq!(cache.len(), 1);
}

#[test]
fn first_evaluation_through_one_keypad_adds_one_entry() {
    let directional = Keypad::directional();
    let mut cache = PressCache::new();
    let sequence = chars("<A");
    assert_eq!(directional.find_min_button_presses(&sequence, 1, &mut cache), 8);
    assert_eq!(cache.len(), 1);
    assert_eq!(cache.entries[0].sequence, sequence);
    assert_eq!(cache.entries[0].depth, 1);
    assert_eq!(cache.entries[0].presses, 8);
    assert_eq!(directional.find_min_button_presses(&sequence, 1, &mut cache), 8);
    assert_eq!(cache.len(), 1);
}

#[test]
fn evaluation_through_two_keypads_remembers_its_candidates_first() {
    let directional = Keypad::directional();
    let mut cache = PressCache::new();
    let sequence = chars("<A");
    assert_eq!(directional.find_min_button_presses(&sequence, 2, &mut cache), 18);
    assert_eq!(cache.len(), 5);
    for entry in cache.entries.iter().take(4) {
        assert_eq!(entry.depth, 1);
        assert_eq!(entry.sequence.len(), 4);
        assert_eq!(entry.sequence[3], 'A');
    }
    assert_eq!(cache.entries[4].sequence, sequence);
    assert_eq!(cache.entries[4].depth, 2);
    assert_eq!(cache.entries[4].presses, 18);
    for (n, entry) in cache.entries.iter().enumerate() {
        for other in cache.entries.iter().skip(n + 1) {
            assert!(entry.sequence != other.sequence || entry.depth != other.depth);
        }
    }
}

#[test]
fn cost_grows_with_depth_where_an_arm_moves() {
    let directional = Keypad::directional();
    let sequence = chars("<A");
    let mut last = 0;
    let mut costs = Vec::new();
    for depth in 0..=25u8 {
        let mut cache = PressCache::new();
        let cost = directional.find_min_button_presses(&sequence, depth, &mut cache);
        assert!(cost > last);
        last = cost;
        costs.push(cost);
    }
    assert_eq!(&costs[0..3], &[2, 8, 18]);
    for depth in 0..=25u8 {
        let mut cache = PressCache::new();
        assert_eq!(directional.find_min_button_presses(&chars("AAA"), depth, &mut cache), 3);
    }
}

#[test]
fn sequences_for_a_code_are_all_different() {
    let numeric = Keypad::numeric();
    for code in ["029A", "980A", "179A", "456A", "379A", "A", "7A", "00A"] {
        let sequences = numeric.find_all_sequences(&chars(code));
        for (n, sequence) in sequences.iter().enumerate() {
            assert!(!sequences[n + 1..].contains(sequence));
        }
    }
    assert_eq!(numeric.find_all_sequences(&chars("7A")).len(), 9 * 9);
    assert_eq!(numeric.find_all_sequences(&chars("00A")).len(), 1);
    assert_eq!(numeric.find_all_sequences(&chars("")), vec![Vec::<char>::new()]);
}

#[test]
fn memo_remembers_each_piece_once() {
    let directional = Keypad::directional();
    let mut memo = SequenceMemo::new();
    let piece = chars("<A");
    let first = directional.get_min_sequence_for_sub_sequence(&piece, &mut memo);
    assert_eq!(first.len(), 8);
    assert_eq!(memo.entries.len(), 1);
    assert_eq!(memo.entries[0].sub_sequence, piece);
    assert_eq!(memo.entries[0].sequence, first);
    let second = directional.get_min_sequence_for_sub_sequence(&piece, &mut memo);
    assert_eq!(second, first);
    assert_eq!(memo.entries.len(), 1);
    let other = directional.get_min_sequence_for_sub_sequence(&chars("A"), &mut memo);
    assert_eq!(text(&other), "A");
    assert_eq!(memo.entries.len(), 2);
    assert_eq!(memo.entries[0].sub_sequence, piece);
    assert_eq!(memo.entries[1].sub_sequence, chars("A"));
}

#[test]
fn codes_are_digits_and_a_press() {
    assert!(is_code_shaped(&chars("029A")));
    assert!(is_code_shaped(&chars("7A")));
    assert!(is_code_shaped(&chars("99999999999999999999999999A")));
    assert!(!is_code_shaped(&chars("A")));
    assert!(!is_code_shaped(&chars("")));
    assert!(!is_code_shaped(&chars("029")));
    assert!(!is_code_shaped(&chars("0A9A")));
    assert!(!is_code_shaped(&chars("02 9A")));
}

#[test]
fn score_is_presses_times_value() {
    assert_eq!(score_of(&chars("029A"), 68), Some(1972));
    assert_eq!(score_of(&chars("000A"), 68), Some(0));
    assert_eq!(score_of(&chars("980A"), 0), Some(0));
    assert_eq!(score_of(&chars("2A"), u64::MAX), None);
    assert_eq!(score_of(&chars("1A"), u64::MAX), Some(u64::MAX));
    assert_eq!(score_of(&chars("99999999999999999999999999A"), 0), Some(0));
    assert_eq!(score_of(&chars("99999999999999999999999999A"), 1), None);
    assert!(matches!(calculate_complexity("99999999999999999999999999A", 0), Ok(0)));
    assert!(matches!(
        calculate_complexity("99999999999999999999999999A", 1),
        Err(CodeError::TooLarge)
    ));
    assert!(matches!(calculate_complexity("18446744073709551615A", 1), Ok(u64::MAX)));
    assert!(matches!(
        calculate_complexity("18446744073709551616A", 1),
        Err(CodeError::TooLarge)
    ));
}

#[test]
fn scores_are_summed_over_the_codes() {
    let codes = vec![chars("029A"), chars("980A"), chars("179A"), chars("456A"), chars("379A")];
    assert_eq!(sum_of_scores(&codes, &vec![68, 60, 68, 64, 64]), Some(126384));
    assert_eq!(sum_of_scores(&codes, &vec![0, 0, 0, 0, 0]), Some(0));
    assert_eq!(sum_of_scores(&codes, &vec![68, 60, u64::MAX, 64, 64]), None);
    assert_eq!(sum_of_scores(&codes, &vec![68, 60, u64::MAX / 2, 64, 64]), None);
    assert_eq!(sum_of_scores(&Vec::new(), &Vec::new()), Some(0));
    let first = vec![chars("029A"), chars("980A")];
    let second = vec![chars("179A"), chars("456A"), chars("379A")];
    let both = sum_of_scores(&first, &vec![68, 60]).unwrap()
        + sum_of_scores(&second, &vec![68, 64, 64]).unwrap();
    assert_eq!(both, 126384);
}

#[test]
fn totals_of_two_texts_add_up() {
    let numeric = Keypad::numeric();
    let directional = Keypad::directional();
    let first = calculate_complexity_for_numeric_codes(&numeric, &directional, "029A\n980A", 2);
    let second =
        calculate_complexity_for_numeric_codes(&numeric, &directional, "179A\n456A\n379A", 2);
    let both = calculate_complexity_for_numeric_codes(
        &numeric,
        &directional,
        "029A\n980A\n179A\n456A\n379A",
        2,
    );
    assert_eq!(first.unwrap() + second.unwrap(), both.unwrap());
    assert!(matches!(
        calculate_complexity_for_numeric_codes(&numeric, &directional, "029A", 0),
        Ok(348)
    ));
}

fn step_on(grid: &[&str], at: (usize, usize), key: char) -> Option<(usize, usize)> {
    let (x, y) = at;
    let to = match key {
        '<' if x > 0 => (x - 1, y),
        '>' if x + 1 < grid[y].len() => (x + 1, y),
        '^' if y > 0 => (x, y - 1),
        'v' if y + 1 < grid.len() => (x, y + 1),
        _ => return None,
    };
    if grid[to.1].as_bytes()[to.0] == b'#' {
        None
    } else {
        Some(to)
    }
}

fn press_key(arms: &mut Vec<(usize, usize)>, level: usize, key: char) -> Option<Option<char>> {
    let numeric = ["789", "456", "123", "#0A"];
    let directional = ["#^A", "<v>"];
    let last = level + 1 == arms.len();
    let grid: &[&str] = if last { &numeric } else { &directional };
    if key == 'A' {
        let (x, y) = arms[level];
        let pressed = grid[y].as_bytes()[x] as char;
        if last {
            Some(Some(pressed))
        } else {
            press_key(arms, level + 1, pressed)
        }
    } else {
        arms[level] = step_on(grid, arms[level], key)?;
        Some(None)
    }
}

fn fewest_keys_by_trying_all(code: &str, robots: usize) -> u64 {
    let code: Vec<char> = code.chars().collect();
    let mut start = vec![(2usize, 0usize); robots];
    start.push((2, 3));
    let mut seen = std::collections::HashSet::new();
    let mut level = vec![(start.clone(), 0usize)];
    seen.insert((start, 0usize));
    let mut keys = 0;
    loop {
        assert!(!level.is_empty());
        keys += 1;
        let mut next = Vec::new();
        for (arms, typed) in level.iter() {
            for key in ['<', '>', '^', 'v', 'A'] {
                let mut moved = arms.clone();
                let typed = match press_key(&mut moved, 0, key) {
                    None => continue,
                    Some(None) => *typed,
                    Some(Some(pressed)) if pressed == code[*typed] => *typed + 1,
                    Some(Some(_)) => continue,
                };
                if typed == code.len() {
                    return keys;
                }
                if seen.insert((moved.clone(), typed)) {
                    next.push((moved, typed));
                }
            }
        }
        level = next;
    }
}

#[test]
fn fewest_presses_agree_with_trying_every_key() {
    let numeric = Keypad::numeric();
    let directional = Keypad::directional();
    let expected = [12, 28, 68, 164];
    for robots in 0..=3u8 {
        assert_eq!(fewest_keys_by_trying_all("029A", robots as usize), expected[robots as usize]);
        for code in ["029A", "980A", "179A", "456A", "379A", "7A", "00A"] {
            assert_eq!(
                min_presses(code, robots, &directional, &numeric),
                fewest_keys_by_trying_all(code, robots as usize)
            );
        }
    }
}
