//! A word search: how often the word XMAS stands in a grid of letters, in
//! any of eight directions, and how often two MAS cross each other in it.

use crate::text::{lines, lines_of, stands_at, views};
use regex::Regex;
use vstd::prelude::*;

verus! {

/// How often `word` is found in the line from the place `from` on, when
/// it is looked for from the left and each search goes on after the end of
/// what was found.
pub open spec fn matches_from(line: Seq<char>, word: Seq<char>, from: int) -> nat
    decreases line.len() - from,
{
    if from < 0 || word.len() == 0 || from + word.len() > line.len() {
        0
    } else if stands_at(line, word, from) {
        1 + matches_from(line, word, from + word.len())
    } else {
        matches_from(line, word, from + 1)
    }
}

/// Whether the character is one of the letters A to Z, large or small.
pub open spec fn is_letter(c: char) -> bool {
    ('A' <= c && c <= 'Z') || ('a' <= c && c <= 'z')
}

/// The word that is looked for.
pub open spec fn xmas() -> Seq<char> {
    seq!['X', 'M', 'A', 'S']
}

/// The word that is looked for, read backwards.
pub open spec fn samx() -> Seq<char> {
    seq!['S', 'A', 'M', 'X']
}

/// How often the word stands in the line, forwards or backwards.
pub open spec fn words_in(line: Seq<char>) -> nat {
    matches_from(line, xmas(), 0) + matches_from(line, samx(), 0)
}

/// How often the word stands in the first `n` lines.
pub open spec fn words_in_lines(all: Seq<Seq<char>>, n: nat) -> nat
    decreases n,
{
    if n == 0 {
        0
    } else {
        words_in_lines(all, (n - 1) as nat) + words_in(all[n - 1])
    }
}

/// The ways in which a line runs through the rows: straight down, down to
/// the left, or down to the right.
#[derive(Clone, Copy, Debug, PartialEq, Eq)]
pub enum Run {
    Vertical,
    ShiftForward,
    ShiftBack,
}

/// The column at which the line with this key meets the row `y`: a vertical
/// line has its column for a key, a line down to the left the sum of row
/// and column, and a line down to the right the row less the column.
pub open spec fn column_at(run: Run, key: int, y: int) -> int {
    match run {
        Run::Vertical => key,
        Run::ShiftForward => key - y,
        Run::ShiftBack => y - key,
    }
}

/// The characters of the line with this key in the first `n` rows, from
/// the top.
pub open spec fn line_through(rows: Seq<Seq<char>>, run: Run, key: int, n: nat) -> Seq<char>
    decreases n,
{
    if n == 0 {
        Seq::empty()
    } else {
        let above = line_through(rows, run, key, (n - 1) as nat);
        let x = column_at(run, key, n - 1);
        if 0 <= x < rows[n - 1].len() {
            above.push(rows[n - 1][x])
        } else {
            above
        }
    }
}

/// The lines of one kind with the `n` keys from `first` on, in the order of
/// their keys, without those that meet no character.
pub open spec fn lines_through(rows: Seq<Seq<char>>, run: Run, first: int, n: nat) -> Seq<
    Seq<char>,
>
    decreases n,
{
    if n == 0 {
        Seq::empty()
    } else {
        let before = lines_through(rows, run, first, (n - 1) as nat);
        let line = line_through(rows, run, first + n - 1, rows.len());
        if line.len() > 0 {
            before.push(line)
        } else {
            before
        }
    }
}

/// The length of the longest of the first `n` rows.
pub open spec fn width(rows: Seq<Seq<char>>, n: nat) -> nat
    decreases n,
{
    if n == 0 {
        0
    } else if rows[n - 1].len() > width(rows, (n - 1) as nat) {
        rows[n - 1].len()
    } else {
        width(rows, (n - 1) as nat)
    }
}

/// The vertical lines of the rows, those down to the left and those down
/// to the right.
pub open spec fn other_lines(rows: Seq<Seq<char>>) -> Seq<Seq<char>> {
    let wide = width(rows, rows.len());
    lines_through(rows, Run::Vertical, 0, wide) + lines_through(
        rows,
        Run::ShiftForward,
        0,
        wide + rows.len(),
    ) + lines_through(rows, Run::ShiftBack, -(wide as int), wide + rows.len())
}

/// How often a word of letters is found in the line by the `regex` crate:
/// the number of matches that `Regex::find_iter` gives for the word as a
/// pattern, which finds the matches from the left, each after the end of
/// the one before. This is taken from the crate, not proved.
#[verifier::external_body]
fn count_matches(word: &str, line: &Vec<char>) -> (count: usize)
    requires
        0 < word@.len() <= 16,
        forall|i: int| 0 <= i < word@.len() ==> is_letter(#[trigger] word@[i]),
    ensures
        count == matches_from(line@, word@, 0),
{
    let text: String = line.iter().collect();
    Regex::new(word).unwrap().find_iter(&text).count()
}

/// How often the word stands in the lines, forwards or backwards, where
/// the number fits.
fn count_in_lines(all: &Vec<Vec<char>>) -> (result: Option<usize>)
    ensures
        result is Some <==> words_in_lines(views(all@), all@.len()) <= usize::MAX,
        result matches Some(count) ==> count == words_in_lines(views(all@), all@.len()),
{
    proof {
        reveal_strlit("XMAS");
        reveal_strlit("SAMX");
        assert("XMAS"@ =~= xmas());
        assert("SAMX"@ =~= samx());
    }
    let mut count: usize = 0;
    let mut i: usize = 0;
    while i < all.len()
        invariant
            i <= all.len(),
            "XMAS"@ == xmas(),
            "SAMX"@ == samx(),
            count == words_in_lines(views(all@), i as nat),
        decreases all.len() - i,
    {
        proof {
            lemma_words_grow(views(all@), (i + 1) as nat, all@.len());
            assert(views(all@)[i as int] == all[i as int]@);
        }
        let found = count_matches("XMAS", &all[i]);
        let more = count_matches("SAMX", &all[i]);
        count = match count.checked_add(found) {
            None => {
                return None;
            },
            Some(sum) => sum,
        };
        count = match count.checked_add(more) {
            None => {
                return None;
            },
            Some(sum) => sum,
        };
        i += 1;
    }
    Some(count)
}

/// The count grows with the lines that are looked at.
pub proof fn lemma_words_grow(all: Seq<Seq<char>>, n: nat, m: nat)
    requires
        n <= m,
    ensures
        words_in_lines(all, n) <= words_in_lines(all, m),
    decreases m,
{
    if n < m {
        lemma_words_grow(all, n, (m - 1) as nat);
    }
}

/// The line of this kind and key through the rows.
fn line_of(lines: &Vec<Vec<char>>, run: Run, key: i128) -> (line: Vec<char>)
    requires
        -(usize::MAX as int) <= key <= 2 * (usize::MAX as int),
    ensures
        line@ == line_through(views(lines@), run, key as int, lines@.len()),
{
    let mut line: Vec<char> = Vec::new();
    let mut y: usize = 0;
    while y < lines.len()
        invariant
            y <= lines.len(),
            -(usize::MAX as int) <= key <= 2 * (usize::MAX as int),
            line@ == line_through(views(lines@), run, key as int, y as nat),
        decreases lines.len() - y,
    {
        assert(views(lines@)[y as int] == lines[y as int]@);
        let x: i128 = match run {
            Run::Vertical => key,
            Run::ShiftForward => key - y as i128,
            Run::ShiftBack => y as i128 - key,
        };
        if 0 <= x && x < lines[y].len() as i128 {
            line.push(lines[y][x as usize]);
        }
        y += 1;
    }
    line
}

/// The length of the longest row.
fn longest(lines: &Vec<Vec<char>>) -> (wide: usize)
    ensures
        wide == width(views(lines@), lines@.len()),
{
    let mut wide: usize = 0;
    let mut y: usize = 0;
    while y < lines.len()
        invariant
            y <= lines.len(),
            wide == width(views(lines@), y as nat),
        decreases lines.len() - y,
    {
        assert(views(lines@)[y as int] == lines[y as int]@);
        if lines[y].len() > wide {
            wide = lines[y].len();
        }
        y += 1;
    }
    wide
}

/// Adds the lines of one kind with the `count` keys from `first` on.
fn add_lines(found: &mut Vec<Vec<char>>, lines: &Vec<Vec<char>>, run: Run, first: i128, count: u128)
    requires
        -(usize::MAX as int) <= first <= 0,
        count <= 2 * (usize::MAX as int),
    ensures
        views(final(found)@) == views(old(found)@) + lines_through(
            views(lines@),
            run,
            first as int,
            count as nat,
        ),
{
    let mut n: u128 = 0;
    assert(views(found@) =~= views(old(found)@) + Seq::<Seq<char>>::empty());
    while n < count
        invariant
            n <= count,
            -(usize::MAX as int) <= first <= 0,
            count <= 2 * (usize::MAX as int),
            views(found@) == views(old(found)@) + lines_through(
                views(lines@),
                run,
                first as int,
                n as nat,
            ),
        decreases count - n,
    {
        let line = line_of(lines, run, first + n as i128);
        if line.len() > 0 {
            let ghost before = views(found@);
            let ghost shown = line@;
            found.push(line);
            assert(views(found@) =~= before.push(shown));
            assert(views(found@) =~= views(old(found)@) + lines_through(
                views(lines@),
                run,
                first as int,
                (n + 1) as nat,
            ));
        }
        n += 1;
    }
}

/// The vertical lines of the rows, those down to the left and those down
/// to the right, without those that meet no character.
pub fn transform_into_vertical_and_diagonals(lines: &Vec<Vec<char>>) -> (found: Vec<Vec<char>>)
    ensures
        views(found@) == other_lines(views(lines@)),
{
    let wide = longest(lines);
    let high = lines.len();
    let mut found: Vec<Vec<char>> = Vec::new();
    assert(views(found@) =~= Seq::<Seq<char>>::empty());
    add_lines(&mut found, lines, Run::Vertical, 0, wide as u128);
    add_lines(&mut found, lines, Run::ShiftForward, 0, wide as u128 + high as u128);
    add_lines(&mut found, lines, Run::ShiftBack, -(wide as i128), wide as u128 + high as u128);
    assert(views(found@) =~= other_lines(views(lines@)));
    found
}

/// How often the word stands in the lines of the text, forwards or
/// backwards: in its rows, its columns and its diagonals. Nothing where the
/// number does not fit.
pub fn count_xmas_words(input: &str) -> (result: Option<usize>)
    ensures
        result is Some <==> words_in_lines(lines_of(input@), lines_of(input@).len())
            + words_in_lines(other_lines(lines_of(input@)), other_lines(lines_of(input@)).len())
            <= usize::MAX,
        result matches Some(count) ==> count == words_in_lines(
            lines_of(input@),
            lines_of(input@).len(),
        ) + words_in_lines(other_lines(lines_of(input@)), other_lines(lines_of(input@)).len()),
{
    let horizontal_lines = lines(input);
    let other = transform_into_vertical_and_diagonals(&horizontal_lines);
    let straight = match count_in_lines(&horizontal_lines) {
        None => {
            return None;
        },
        Some(count) => count,
    };
    let across = match count_in_lines(&other) {
        None => {
            return None;
        },
        Some(count) => count,
    };
    straight.checked_add(across)
}

/// Whether the two characters are an M and an S.
pub open spec fn ms(a: char, b: char) -> bool {
    (a == 'M' && b == 'S') || (a == 'S' && b == 'M')
}

/// Whether the two characters are an M and an S.
pub fn is_ms(a: char, b: char) -> (found: bool)
    ensures
        found == ms(a, b),
{
    match (a, b) {
        ('M', 'S') => true,
        ('S', 'M') => true,
        _ => false,
    }
}

/// How far a row is looked at: up to its last character, and no further
/// than the last column but one of a square with as many columns as there
/// are rows.
pub open spec fn reach_of(rows: Seq<Seq<char>>, y: int) -> int {
    if rows[y].len() < rows.len() - 1 {
        rows[y].len() as int
    } else {
        rows.len() - 1
    }
}

/// Whether the four corners of the place can be read.
pub open spec fn has_corners(rows: Seq<Seq<char>>, y: int, x: int) -> bool {
    x + 1 < rows[y - 1].len() && x + 1 < rows[y + 1].len()
}

/// Whether the rows can be searched for crosses: there are two rows or
/// more, and each A that is looked at has four corners.
pub open spec fn searchable(rows: Seq<Seq<char>>) -> bool {
    rows.len() >= 2 && forall|y: int, x: int|
        1 <= y < rows.len() - 1 && 1 <= x < reach_of(rows, y) && #[trigger] rows[y][x] == 'A'
            ==> has_corners(rows, y, x)
}

/// Whether two MAS cross at the place, each in either direction.
pub open spec fn is_cross(rows: Seq<Seq<char>>, y: int, x: int) -> bool {
    rows[y][x] == 'A' && ms(rows[y - 1][x - 1], rows[y + 1][x + 1]) && ms(
        rows[y - 1][x + 1],
        rows[y + 1][x - 1],
    )
}

/// The crosses in the row `y` from the second column to the one before `n`.
pub open spec fn crosses_in_row(rows: Seq<Seq<char>>, y: int, n: nat) -> nat
    decreases n,
{
    if n <= 1 {
        0
    } else {
        crosses_in_row(rows, y, (n - 1) as nat) + if is_cross(rows, y, n - 1) {
            1nat
        } else {
            0nat
        }
    }
}

/// The crosses in the rows from the second to the one before `n`.
pub open spec fn crosses(rows: Seq<Seq<char>>, n: nat) -> nat
    decreases n,
{
    if n <= 1 {
        0
    } else {
        crosses(rows, (n - 1) as nat) + crosses_in_row(rows, n - 1, reach_of(rows, n - 1) as nat)
    }
}

/// The count grows with the rows that are looked at.
pub proof fn lemma_crosses_grow(rows: Seq<Seq<char>>, n: nat, m: nat)
    requires
        n <= m,
    ensures
        crosses(rows, n) <= crosses(rows, m),
    decreases m,
{
    if n < m {
        lemma_crosses_grow(rows, n, (m - 1) as nat);
    }
}

/// How often two MAS cross in the text, looked for at the places of a
/// square without its border; nothing where the text has fewer than two
/// lines, where a corner of an A is missing, or where the number does not
/// fit.
pub fn count_crossed_mas(text: &str) -> (result: Option<usize>)
    ensures
        result is Some <==> searchable(lines_of(text@)) && crosses(
            lines_of(text@),
            (lines_of(text@).len() - 1) as nat,
        ) <= usize::MAX,
        result matches Some(count) ==> count == crosses(
            lines_of(text@),
            (lines_of(text@).len() - 1) as nat,
        ),
{
    let lines = lines(text);
    let ghost rows = views(lines@);
    let max = lines.len();
    if max < 2 {
        return None;
    }
    let mut count: usize = 0;
    let mut y: usize = 1;
    while y < max - 1
        invariant
            1 <= y <= max - 1,
            max == lines.len(),
            rows == views(lines@),
            rows == lines_of(text@),
            count == crosses(rows, y as nat),
            forall|v: int, x: int|
                1 <= v < y && 1 <= x < reach_of(rows, v) && #[trigger] rows[v][x] == 'A'
                    ==> has_corners(rows, v, x),
        decreases max - y,
    {
        let line = &lines[y];
        let prev_line = &lines[y - 1];
        let next_line = &lines[y + 1];
        assert(rows[y as int] == line@ && rows[y - 1] == prev_line@ && rows[y + 1] == next_line@);
        let limit = if line.len() < max - 1 {
            line.len()
        } else {
            max - 1
        };
        let mut found: usize = 0;
        let mut x: usize = 1;
        while x < limit
            invariant
                1 <= x,
                x <= limit || x == 1,
                limit == reach_of(rows, y as int),
                limit <= line.len(),
                1 <= y < max - 1,
                max == lines.len(),
                rows == views(lines@),
                rows == lines_of(text@),
                count == crosses(rows, y as nat),
                forall|v: int, x: int|
                    1 <= v < y && 1 <= x < reach_of(rows, v) && #[trigger] rows[v][x] == 'A'
                        ==> has_corners(rows, v, x),
                rows[y as int] == line@ && rows[y - 1] == prev_line@ && rows[y + 1] == next_line@,
                found == crosses_in_row(rows, y as int, x as nat),
                found <= x,
                forall|u: int|
                    1 <= u < x && #[trigger] rows[y as int][u] == 'A' ==> has_corners(
                        rows,
                        y as int,
                        u,
                    ),
            decreases limit - x,
        {
            if line[x] == 'A' {
                if x + 1 >= prev_line.len() || x + 1 >= next_line.len() {
                    assert(!has_corners(rows, y as int, x as int));
                    return None;
                }
                let top_left = prev_line[x - 1];
                let top_right = prev_line[x + 1];
                let bottom_left = next_line[x - 1];
                let bottom_right = next_line[x + 1];
                if is_ms(top_left, bottom_right) && is_ms(top_right, bottom_left) {
                    found += 1;
                }
            }
            x += 1;
        }
        proof {
            lemma_crosses_grow(rows, (y + 1) as nat, (max - 1) as nat);
            if limit == 0 {
                assert(crosses_in_row(rows, y as int, 0) == 0);
                assert(crosses_in_row(rows, y as int, 1) == 0);
            }
        }
        count = match count.checked_add(found) {
            None => {
                return None;
            },
            Some(sum) => sum,
        };
        y += 1;
    }
    Some(count)
}

/// How often the word stands in the text, and how often two MAS cross in
/// it.
pub fn solve(input: &str) -> (result: Option<(usize, usize)>)
    ensures
        result matches Some(counts) ==> {
            &&& counts.0 == words_in_lines(lines_of(input@), lines_of(input@).len())
                + words_in_lines(
                other_lines(lines_of(input@)),
                other_lines(lines_of(input@)).len(),
            )
            &&& searchable(lines_of(input@))
            &&& counts.1 == crosses(lines_of(input@), (lines_of(input@).len() - 1) as nat)
        },
        searchable(lines_of(input@)) && words_in_lines(lines_of(input@), lines_of(input@).len())
            + words_in_lines(other_lines(lines_of(input@)), other_lines(lines_of(input@)).len())
            <= usize::MAX && crosses(lines_of(input@), (lines_of(input@).len() - 1) as nat)
            <= usize::MAX ==> result is Some,
{
    let part1 = match count_xmas_words(input) {
        None => {
            return None;
        },
        Some(count) => count,
    };
    let part2 = match count_crossed_mas(input) {
        None => {
            return None;
        },
        Some(count) => count,
    };
    Some((part1, part2))
}

} // verus!
