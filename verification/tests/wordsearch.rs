use aoc24::wordsearch::{
    count_crossed_mas, count_xmas_words, is_ms, solve, transform_into_vertical_and_diagonals,
};

const EXAMPLE: &str = "MMMSXXMASM\nMSAMXMSMSA\nAMXSXMAAMM\nMSAMASMSMX\nXMASAMXAMM\nXXAMMXXAMA\nSMSMSASXSS\nSAXAMASAAA\nMAMMMXMMMM\nMXMXAXMASX\n";

fn rows(lines: &[&str]) -> Vec<Vec<char>> {
    lines.iter().map(|l| l.chars().collect()).collect()
}

fn texts(lines: &Vec<Vec<char>>) -> Vec<String> {
    lines.iter().map(|l| l.iter().collect()).collect()
}

#[test]
fn the_example_holds_18_words_and_9_crosses() {
    assert_eq!(count_xmas_words(EXAMPLE), Some(18));
    assert_eq!(count_crossed_mas(EXAMPLE), Some(9));
    assert_eq!(solve(EXAMPLE), Some((18, 9)));
}

#[test]
fn columns_and_diagonals_come_in_the_order_of_their_keys() {
    let found = transform_into_vertical_and_diagonals(&rows(&["ab", "cd"]));
    assert_eq!(texts(&found), vec!["ac", "bd", "a", "bc", "d", "b", "ad", "c"]);
    let found = transform_into_vertical_and_diagonals(&rows(&["abc", "", "d"]));
    assert_eq!(texts(&found), vec!["ad", "b", "c", "a", "b", "cd", "c", "b", "a", "d"]);
    assert!(transform_into_vertical_and_diagonals(&rows(&[])).is_empty());
}

#[test]
fn words_are_counted_in_all_eight_directions() {
    assert_eq!(count_xmas_words("XMAS"), Some(1));
    assert_eq!(count_xmas_words("SAMX"), Some(1));
    assert_eq!(count_xmas_words("XMASAMX"), Some(2));
    assert_eq!(count_xmas_words("XMASXMAS"), Some(2));
    assert_eq!(count_xmas_words("X\nM\nA\nS"), Some(1));
    assert_eq!(count_xmas_words("S\nA\nM\nX"), Some(1));
    assert_eq!(count_xmas_words("X...\n.M..\n..A.\n...S"), Some(1));
    assert_eq!(count_xmas_words("...X\n..M.\n.A..\nS..."), Some(1));
    assert_eq!(count_xmas_words("S...\n.A..\n..M.\n...X"), Some(1));
    assert_eq!(count_xmas_words("...S\n..A.\n.M..\nX..."), Some(1));
    assert_eq!(count_xmas_words(""), Some(0));
    assert_eq!(count_xmas_words("XMA\nS"), Some(0));
}

#[test]
fn crosses_are_looked_for_inside_a_square() {
    assert_eq!(count_crossed_mas("M.S\n.A.\nM.S"), Some(1));
    assert_eq!(count_crossed_mas("M.M\n.A.\nS.S"), Some(1));
    assert_eq!(count_crossed_mas("S.M\n.A.\nS.M"), Some(1));
    assert_eq!(count_crossed_mas("M.S\n.A.\nS.M"), Some(0));
    assert_eq!(count_crossed_mas("M.S\n.X.\nM.S"), Some(0));
    // the fourth column lies outside the square of three rows
    assert_eq!(count_crossed_mas("MM.S\n..A.\nMM.S"), Some(0));
    assert_eq!(count_crossed_mas("M.S.\n.A..\nM.S."), Some(1));
}

#[test]
fn a_text_that_cannot_be_searched_has_no_count_of_crosses() {
    assert_eq!(count_crossed_mas(""), None);
    assert_eq!(count_crossed_mas("MAS"), None);
    assert_eq!(count_crossed_mas("MAS\nMAS"), Some(0));
    assert_eq!(count_crossed_mas("M.\n.A.\nM.S"), None);
    assert_eq!(count_crossed_mas("M.S\n.A.\nM."), None);
    assert_eq!(count_crossed_mas("M.\n.X.\nM."), Some(0));
    assert_eq!(solve("XMAS"), None);
}

#[test]
fn an_m_and_an_s_make_a_pair() {
    assert!(is_ms('M', 'S'));
    assert!(is_ms('S', 'M'));
    assert!(!is_ms('M', 'M'));
    assert!(!is_ms('S', 'S'));
    assert!(!is_ms('A', 'S'));
    assert!(!is_ms('m', 's'));
}
