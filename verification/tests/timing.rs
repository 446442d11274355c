use aoc24::timing::{
    default_timing_text, get_default_timing, named_durations, push_measurement, total_of_named,
    Measurement,
};

#[test]
fn measurements_are_kept_in_order() {
    let mut list: Vec<Measurement> = Vec::new();
    push_measurement(&mut list, "parse".to_string(), 5);
    push_measurement(&mut list, String::new(), 40);
    push_measurement(&mut list, "part1".to_string(), 7);
    push_measurement(&mut list, String::new(), 99);
    assert_eq!(list.len(), 4);
    assert_eq!(list[0].name, "parse");
    assert_eq!(list[2].nanos, 7);
    assert_eq!(get_default_timing(&list), 40);
    assert_eq!(total_of_named(&list), Some(12));
}

#[test]
fn measurements_without_a_whole_run() {
    let mut list: Vec<Measurement> = Vec::new();
    assert_eq!(get_default_timing(&list), 0);
    assert_eq!(total_of_named(&list), Some(0));
    push_measurement(&mut list, "a".to_string(), u128::MAX);
    push_measurement(&mut list, "b".to_string(), 1);
    assert_eq!(get_default_timing(&list), 0);
    assert_eq!(total_of_named(&list), None);
}

#[test]
fn nanoseconds_are_written_in_groups_of_three() {
    let mut list: Vec<Measurement> = Vec::new();
    push_measurement(&mut list, "parse".to_string(), 1234567);
    push_measurement(&mut list, String::new(), 1000);
    push_measurement(&mut list, "part1".to_string(), 999);
    push_measurement(&mut list, "part2".to_string(), 1000000);
    assert_eq!(default_timing_text(&list), "1,000");
    let (rows, sum, text) = named_durations(&list).unwrap();
    let seen: Vec<(usize, &str)> = rows.iter().map(|r| (r.index, r.text.as_str())).collect();
    assert_eq!(seen, vec![(0, "1,234,567"), (2, "999"), (3, "1,000,000")]);
    assert_eq!(sum, 2235566);
    assert_eq!(text, "2,235,566");
}

#[test]
fn a_table_needs_more_than_one_measurement() {
    let mut list: Vec<Measurement> = Vec::new();
    assert!(named_durations(&list).is_none());
    assert_eq!(default_timing_text(&list), "0");
    push_measurement(&mut list, "only".to_string(), 5);
    assert!(named_durations(&list).is_none());
    push_measurement(&mut list, String::new(), u128::MAX);
    let (rows, sum, text) = named_durations(&list).unwrap();
    assert_eq!(rows.len(), 1);
    assert_eq!((sum, text.as_str()), (5, "5"));
    assert_eq!(
        default_timing_text(&list),
        "340,282,366,920,938,463,463,374,607,431,768,211,455"
    );
    push_measurement(&mut list, "more".to_string(), u128::MAX);
    assert!(named_durations(&list).is_none());
}
