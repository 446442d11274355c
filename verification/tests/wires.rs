use aoc24::wires::{
    find_gates_to_swap, get_values_to_test, parse as parse_wires, parse_to_usize, process_logic_system,
    read_value_from_wires, sort_names, sum, swap_wires, validate_sum, validate_sums_to_bits,
    write_value_to_wires, Wires, FALSE, TRUE,
};

fn chars(text: &str) -> Vec<char> {
    text.chars().collect()
}

const SYSTEM: &str = "x00: 1\nx01: 1\nx02: 1\ny00: 0\ny01: 1\ny02: 0\n\nx00 AND y00 -> z00\nx01 XOR y01 -> z01\nx02 OR y02 -> z02\n";

const ADDER: &str = "x00: 0\ny00: 0\n\nx00 XOR y00 -> z00\nx00 AND y00 -> z01\n";

#[test]
fn test_convert_to_wires() {
    let result = write_value_to_wires('z', 5, 2);

    assert_eq!(result.len(), 3);
    assert_eq!(Some(TRUE), result.get(&chars("z00")));
    assert_eq!(Some(FALSE), result.get(&chars("z01")));
    assert_eq!(Some(TRUE), result.get(&chars("z02")));

    let converted_back = read_value_from_wires(&result, &chars("z"));
    assert_eq!(converted_back, 5);
}

#[test]
fn wires_example_output() {
    let (wires, gates) = parse_wires(SYSTEM).unwrap_or_else(|| panic!("a system"));
    assert_eq!(wires.len(), 6);
    assert_eq!(gates.len(), 3);
    assert_eq!(gates[1].first_input, chars("x01"));
    assert_eq!(gates[1].second_input, chars("y01"));
    assert_eq!(gates[1].output, chars("z01"));
    assert!(gates[1].is_z);
    assert_eq!(gates[2].output_id, 2);
    assert_eq!(process_logic_system(&wires, &gates), Some(4));
    assert_eq!(gates[0].process_strict(&wires), Some(0));
    assert_eq!(gates[2].process_with_short_circuit(&wires), Some(1));
}

#[test]
fn wires_are_settled_in_any_order() {
    let text = "a00: 1\nb00: 1\n\nccc AND a00 -> z01\na00 XOR b00 -> z00\na00 OR b00 -> ccc\n";
    let (wires, gates) = parse_wires(text).unwrap_or_else(|| panic!("a system"));
    assert_eq!(process_logic_system(&wires, &gates), Some(2));
    let stuck = "a00: 1\n\na00 AND qqq -> z00\n";
    let (wires, gates) = parse_wires(stuck).unwrap_or_else(|| panic!("a system"));
    assert_eq!(process_logic_system(&wires, &gates), None);
    let settled_early = "a00: 0\n\na00 AND qqq -> z00\n";
    let (wires, gates) = parse_wires(settled_early).unwrap_or_else(|| panic!("a system"));
    assert_eq!(process_logic_system(&wires, &gates), Some(0));
    assert_eq!(gates[0].process_strict(&wires), None);
}

#[test]
fn wires_hold_the_last_bit_put() {
    let mut wires = Wires::new();
    wires.insert(chars("abc"), 1);
    wires.insert(chars("abd"), 0);
    wires.insert(chars("abc"), 0);
    assert_eq!(wires.len(), 2);
    assert_eq!(wires.get(&chars("abc")), Some(0));
    assert_eq!(wires.get(&chars("abe")), None);
    let wide = write_value_to_wires('x', 1 << 11, 11);
    assert_eq!(wide.get(&chars("x11")), Some(1));
    assert_eq!(wide.get(&chars("x10")), Some(0));
    assert_eq!(read_value_from_wires(&wide, &chars("x")), 2048);
    assert_eq!(read_value_from_wires(&wide, &chars("y")), 0);
    let many = write_value_to_wires('z', u64::MAX, 70);
    assert_eq!(many.len(), 71);
    assert_eq!(read_value_from_wires(&many, &chars("z")), u64::MAX);
}

#[test]
fn wires_numbers_are_read_roughly() {
    assert_eq!(parse_to_usize(&chars("07")), Some(7));
    assert_eq!(parse_to_usize(&chars("45")), Some(45));
    assert_eq!(parse_to_usize(&chars("")), Some(0));
    assert_eq!(parse_to_usize(&chars(":")), Some(10));
    assert_eq!(parse_to_usize(&chars("/1")), None);
    assert_eq!(get_values_to_test(1), [0, 1]);
    assert_eq!(get_values_to_test(3), [3, 5]);
}

#[test]
fn wires_one_bit_adder() {
    let (_, mut gates) = parse_wires(ADDER).unwrap_or_else(|| panic!("a system"));
    assert_eq!(sum(&gates, 1, 1, 1), Some(2));
    assert_eq!(sum(&gates, 0, 1, 1), Some(1));
    assert_eq!(validate_sum(&gates, 1), Some(true));
    assert!(validate_sums_to_bits(&gates, 1));
    assert!(swap_wires(&mut gates, &chars("z00"), &chars("z01")));
    assert_eq!(gates[0].output, chars("z01"));
    assert_eq!(gates[0].output_id, 1);
    assert_eq!(validate_sum(&gates, 1), Some(false));
    assert!(!swap_wires(&mut gates, &chars("z00"), &chars("nop")));
    let found = find_gates_to_swap(&mut gates, 1, &Vec::new());
    assert!(found.is_none());
}

#[test]
fn wires_names_are_sorted() {
    let sorted = sort_names(vec![chars("z05"), chars("abc"), chars("z00"), chars("ab")]);
    assert_eq!(sorted, vec![chars("ab"), chars("abc"), chars("z00"), chars("z05")]);
}

#[test]
fn wires_names_are_kept_as_often_as_given() {
    let sorted = sort_names(vec![chars("z05"), chars("ab"), chars("z05"), chars("ab"), chars("m")]);
    assert_eq!(
        sorted,
        vec![chars("ab"), chars("ab"), chars("m"), chars("z05"), chars("z05")]
    );
    assert_eq!(sort_names(Vec::new()), Vec::<Vec<char>>::new());
}

#[test]
fn wires_lines_must_be_wires_or_gates() {
    assert!(parse_wires("x00: 1\n\nx00 NOT y00 -> z00\n").is_none());
    assert!(parse_wires("x00\n").is_none());
    assert!(parse_wires("x00: 1\n\nx00 AND y00 -> z0\n").is_none());
    assert!(parse_wires("").is_some());
}
