use aoc24::towels::{can_create_design_using, get_possible_designs, get_sum_of_towel_arrangements, get_towel_arrangements, parse as parse_towels_text, parse_towels, solve as solve_towels};

fn chars(text: &str) -> Vec<char> {
    text.chars().collect()
}

const TOWELS: &str = "r, wr, b, g, bwu, rb, gb, br\n\nbrwrr\nbggr\ngbbr\nrrbgbr\nubwu\nbwurrg\nbrgr\nbbrgwb\n";

#[test]
fn towels_example_counts() {
    assert_eq!(solve_towels(TOWELS), (6, 16));
}

#[test]
fn towels_make_designs() {
    let (towels, designs) = parse_towels_text(TOWELS);
    assert_eq!(towels.len(), 8);
    assert_eq!(designs.len(), 8);
    assert_eq!(towels[1], chars("wr"));
    assert!(can_create_design_using(&chars("brwrr"), &towels));
    assert!(!can_create_design_using(&chars("ubwu"), &towels));
    assert!(!can_create_design_using(&chars(""), &towels));
    assert!(can_create_design_using(&chars(""), &vec![chars("")]));
    assert!(!can_create_design_using(&chars("ab"), &vec![chars(""), chars("a")]));
    let possible = get_possible_designs(&towels, &designs);
    assert_eq!(possible.len(), 6);
    assert_eq!(get_sum_of_towel_arrangements(&towels, &possible), 16);
    let design = chars("rrbgbr");
    let mut cache = vec![None; design.len()];
    assert_eq!(get_towel_arrangements(&design, &towels, 0, &mut cache), 6);
    assert_eq!(cache[0], Some(6));
}

#[test]
fn towels_are_listed_with_comma_and_blank() {
    assert_eq!(parse_towels(&chars("a, b,c,  d")), vec![chars("a"), chars("b,c"), chars(" d")]);
    assert_eq!(parse_towels(&chars("")), vec![chars("")]);
    assert_eq!(solve_towels(""), (0, 0));
}
