use aoc24::parties::{
    any_start_with_t, count_interconnected_computers_with_a_t, find_largest_lan_party,
    largest_party, parse_as_connections, solve, Connection,
};

const EXAMPLE: &str = "kh-tc\nqp-kh\nde-cg\nka-co\nyn-aq\nqp-ub\ncg-tb\nvc-aq\ntb-ka\nwh-tc\nyn-cg\nkh-ub\nta-co\nde-co\ntc-td\ntb-wq\nwh-td\nta-ka\ntd-qp\naq-cg\nwq-ub\nub-vc\nde-ta\nwq-aq\nwq-vc\nwh-yn\nka-de\nkh-ta\nco-tc\nwh-qp\ntb-vc\ntd-yn\n";

fn chars(s: &str) -> Vec<char> {
    s.chars().collect()
}

fn text(s: Vec<char>) -> String {
    s.into_iter().collect()
}

fn connections(pairs: &[(&str, &str)]) -> Vec<Connection> {
    pairs.iter().map(|(a, b)| Connection { from: chars(a), to: chars(b) }).collect()
}

#[test]
fn the_example_network_has_7_sets_with_a_t() {
    assert_eq!(count_interconnected_computers_with_a_t(EXAMPLE), Some(7));
}

#[test]
fn the_largest_party_of_the_example_is_co_de_ka_ta() {
    assert_eq!(find_largest_lan_party(EXAMPLE).map(text), Some("co,de,ka,ta".to_string()));
    let found = solve(EXAMPLE).unwrap();
    assert_eq!((found.0, text(found.1)), (7, "co,de,ka,ta".to_string()));
}

#[test]
fn connections_are_read_line_by_line() {
    let found = parse_as_connections("ab-cd\nx-y-z\n-\n").unwrap();
    let seen: Vec<(String, String)> =
        found.into_iter().map(|c| (text(c.from), text(c.to))).collect();
    assert_eq!(
        seen,
        vec![
            ("ab".to_string(), "cd".to_string()),
            ("x".to_string(), "y".to_string()),
            ("".to_string(), "".to_string())
        ]
    );
    assert!(parse_as_connections("ab-cd\nxy\n").is_none());
    assert!(parse_as_connections("ab-cd\n\nxy-z\n").is_none());
    assert_eq!(count_interconnected_computers_with_a_t("ab\n"), None);
    assert_eq!(find_largest_lan_party("ab\n"), None);
}

#[test]
fn a_set_of_three_needs_a_name_that_starts_with_t() {
    assert_eq!(count_interconnected_computers_with_a_t("a-b\nb-c\nc-a\n"), Some(0));
    assert_eq!(count_interconnected_computers_with_a_t("a-b\nb-t\nt-a\n"), Some(1));
    assert_eq!(count_interconnected_computers_with_a_t("ta-b\nb-c\nc-ta\n"), Some(1));
    assert_eq!(count_interconnected_computers_with_a_t("at-b\nb-c\nc-at\n"), Some(0));
    assert_eq!(count_interconnected_computers_with_a_t("a-b\nb-t\n"), Some(0));
    // a connection that stands twice counts its set at each place
    assert_eq!(count_interconnected_computers_with_a_t("a-b\na-b\nb-t\nt-a\n"), Some(2));
    assert_eq!(count_interconnected_computers_with_a_t(""), Some(0));
    assert!(any_start_with_t(&chars("ab"), &chars("tb"), &chars("c")));
    assert!(any_start_with_t(&chars("ab"), &chars("b"), &chars("t")));
    assert!(!any_start_with_t(&chars("ab"), &chars("bt"), &chars("")));
}

#[test]
fn the_largest_party_is_the_only_one_of_its_size() {
    let one = connections(&[("b", "a")]);
    assert_eq!(largest_party(&one).map(text), Some("a,b".to_string()));
    let triangle = connections(&[("b", "a"), ("c", "b"), ("a", "c"), ("c", "d")]);
    assert_eq!(largest_party(&triangle).map(text), Some("a,b,c".to_string()));
    // two parties of two, and none of three
    let line = connections(&[("a", "b"), ("b", "c")]);
    assert_eq!(largest_party(&line), None);
    assert_eq!(largest_party(&connections(&[])), None);
    // a computer that is connected with itself
    let looped = connections(&[("a", "b"), ("c", "c")]);
    assert_eq!(largest_party(&looped), None);
    // a connection that stands twice, or the other way round, is one
    let twice = connections(&[("a", "b"), ("b", "a"), ("a", "b")]);
    assert_eq!(largest_party(&twice).map(text), Some("a,b".to_string()));
}

#[test]
fn four_computers_that_are_all_connected_make_a_party() {
    let all = connections(&[
        ("d", "a"),
        ("a", "b"),
        ("c", "a"),
        ("b", "c"),
        ("b", "d"),
        ("d", "c"),
        ("e", "a"),
        ("e", "b"),
    ]);
    assert_eq!(largest_party(&all).map(text), Some("a,b,c,d".to_string()));
}
