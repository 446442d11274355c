use aoc24::products::{do_enabled_multiplications, do_multiplication, solve};

#[test]
fn the_example_products_sum_to_161() {
    let text = "xmul(2,4)%&mul[3,7]!@^do_not_mul(5,5)+mul(32,64]then(mul(11,8)mul(8,5))";
    assert_eq!(do_multiplication(text), Some(161));
}

#[test]
fn the_example_products_that_are_switched_on_sum_to_48() {
    let text = "xmul(2,4)&mul[3,7]!^don't()_mul(5,5)+mul(32,64](mul(11,8)undo()?mul(8,5))";
    assert_eq!(do_enabled_multiplications(text), Some(48));
    assert_eq!(solve(text), Some((161, 48)));
}

#[test]
fn numbers_have_one_to_three_digits() {
    assert_eq!(do_multiplication("mul(1234,5)"), Some(0));
    assert_eq!(do_multiplication("mul(123,4567)"), Some(0));
    assert_eq!(do_multiplication("mul(,5)"), Some(0));
    assert_eq!(do_multiplication("mul(5,)"), Some(0));
    assert_eq!(do_multiplication("mul(999,999)"), Some(998001));
    assert_eq!(do_multiplication("mul(007,08)"), Some(56));
    assert_eq!(do_multiplication("mul(1,mul(2,3))"), Some(6));
    assert_eq!(do_multiplication("mul(2,3"), Some(0));
    assert_eq!(do_multiplication("mul(2, 3)"), Some(0));
    assert_eq!(do_multiplication("mul(+2,3)"), Some(0));
    assert_eq!(do_multiplication("Mul(2,3)"), Some(0));
    assert_eq!(do_multiplication(""), Some(0));
    assert_eq!(do_multiplication("\u{e9}mul(2,3)\u{e9}mul(4,5)"), Some(26));
}

#[test]
fn switches_count_only_in_the_other_state() {
    assert_eq!(do_enabled_multiplications("do()mul(1,2)do()mul(3,4)"), Some(14));
    assert_eq!(do_enabled_multiplications("don't()don't()mul(1,2)do()mul(3,4)"), Some(12));
    assert_eq!(do_enabled_multiplications("don't()mul(1,2)undo()mul(3,4)don't"), Some(12));
    assert_eq!(do_enabled_multiplications("dont()mul(1,2)"), Some(2));
    assert_eq!(do_enabled_multiplications("don't()mul(1,2)do ()mul(3,4)"), Some(0));
}

#[test]
fn a_sum_beyond_32_bits_is_refused() {
    let text = "mul(999,999)".repeat(4303);
    assert_eq!(do_multiplication(&text), Some(4294398303));
    let text = "mul(999,999)".repeat(4304);
    assert_eq!(do_multiplication(&text), None);
    assert_eq!(solve(&text), None);
    let off = format!("don't(){}", text);
    assert_eq!(do_enabled_multiplications(&off), Some(0));
    assert_eq!(solve(&off), None);
}
