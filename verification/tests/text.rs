use aoc24::text::{
    append, char_at, chars_of, chained, copy_range, digit_of, first_index_of, lines, lines_of_chars,
    parse_decimal, same_chars, split,
};

fn chars(text: &str) -> Vec<char> {
    text.chars().collect()
}

fn std_lines(text: &str) -> Vec<Vec<char>> {
    text.lines().map(|line| line.chars().collect()).collect()
}

#[test]
fn lines_are_those_of_the_standard_library() {
    for text in [
        "",
        "\n",
        "a",
        "a\n",
        "a\nb",
        "a\r\nb\r\n",
        "a\n\nb\n\n",
        "foo\nbar\n\r\nbaz\r",
        "\r",
        "\r\n",
        "a\r\r\n",
        "x\ry\n",
        "\n\n\n",
    ] {
        assert_eq!(lines(text), std_lines(text), "{:?}", text);
        assert_eq!(lines_of_chars(&chars(text)), std_lines(text), "{:?}", text);
    }
}

#[test]
fn splitting_keeps_empty_pieces() {
    assert_eq!(split(&chars("a,b,,c,"), ','), vec![chars("a"), chars("b"), chars(""), chars("c"), chars("")]);
    assert_eq!(split(&chars(""), ','), vec![chars("")]);
}

#[test]
fn numbers_are_read_digit_by_digit() {
    assert_eq!(parse_decimal(&chars("0")), Some(0));
    assert_eq!(parse_decimal(&chars("029")), Some(29));
    assert_eq!(parse_decimal(&chars("18446744073709551615")), Some(u64::MAX));
    assert_eq!(parse_decimal(&chars("18446744073709551616")), None);
    assert_eq!(parse_decimal(&chars("")), None);
    assert_eq!(parse_decimal(&chars("12a")), None);
    assert_eq!(parse_decimal(&chars("-1")), None);
    assert_eq!(digit_of('7'), Some(7));
    assert_eq!(digit_of('a'), None);
}

#[test]
fn characters_are_copied_and_compared() {
    assert_eq!(chars_of("héllo"), chars("héllo"));
    assert_eq!(char_at(&chars("abc"), 1), 'b');
    assert_eq!(copy_range(&chars("abcdef"), 2, 4), chars("cd"));
    assert_eq!(chained(&chars("ab"), &chars("cd")), chars("abcd"));
    let mut grown = chars("ab");
    append(&mut grown, &chars("cd"));
    assert_eq!(grown, chars("abcd"));
    assert!(same_chars(&chars("abc"), &chars("abc")));
    assert!(!same_chars(&chars("abc"), &chars("abd")));
    assert!(!same_chars(&chars("abc"), &chars("ab")));
    assert_eq!(first_index_of(&chars("ab\rc\r"), '\r'), Some(2));
    assert_eq!(first_index_of(&chars("abc"), '\r'), None);
}
