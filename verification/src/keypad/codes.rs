//! The score of a door code: the presses that typing it costs the human,
//! times the number that its digits write.

use crate::keypad::catalog::Keypad;
use crate::keypad::counting::{
    get_min_presses_for_numeric_code_with_two_directional_keypads, least_expanded, SequenceMemo,
};
use crate::keypad::layout::{Cell, HOME};
use crate::keypad::pads::{
    directional_layout, is_numeric_button, lemma_cell_has_button, numeric_layout,
};
use crate::keypad::presses::{
    capped, code_presses, get_min_button_presses_for_numeric_code, lemma_buttons_of_the_grid,
    lemma_code_presses_of_the_grids, PressCache,
};
use crate::text::{
    all_digits, chars_of, copy_range, decimal_value, digit_of, is_digit, lines_of, lines_of_chars,
    parse_decimal, views,
};
use vstd::prelude::*;

verus! {

/// Why codes have no score.
#[derive(Debug)]
pub enum CodeError {
    /// A code is not a run of digits followed by `A`, or names a button
    /// that the keypad lacks.
    Malformed,
    /// A count of presses or a score does not fit in 64 bits.
    TooLarge,
}

/// Whether `code` is a code: at least one digit, then `A`.
pub open spec fn is_code(code: Seq<char>) -> bool {
    &&& code.len() >= 2
    &&& code.last() == HOME
    &&& all_digits(code.drop_last())
}

/// Whether `code` writes a number that fits in 64 bits.
pub open spec fn has_value(code: Seq<char>) -> bool {
    is_code(code) && decimal_value(code.drop_last()) <= u64::MAX
}

/// The number that the digits of `code` write.
pub open spec fn code_value(code: Seq<char>) -> nat {
    decimal_value(code.drop_last())
}

/// Whether `code` is a code.
pub fn is_code_shaped(code: &Vec<char>) -> (shaped: bool)
    ensures
        shaped == is_code(code@),
{
    let n = code.len();
    if n < 2 || code[n - 1] != HOME {
        return false;
    }
    let mut i: usize = 0;
    while i < n - 1
        invariant
            n == code.len(),
            n >= 2,
            i <= n - 1,
            all_digits(code@.drop_last().take(i as int)),
        decreases n - 1 - i,
    {
        if digit_of(code[i]).is_none() {
            assert(!is_digit(code@.drop_last()[i as int]));
            return false;
        }
        assert forall|j: int| 0 <= j < i + 1 implies is_digit(
            #[trigger] code@.drop_last().take(i + 1)[j],
        ) by {
            if j < i {
                assert(code@.drop_last().take(i as int)[j] == code@.drop_last().take(i + 1)[j]);
            }
        }
        i += 1;
    }
    assert(code@.drop_last().take(i as int) == code@.drop_last());
    true
}

/// The number that the digits of `code` write, if it is a code and the
/// number fits in 64 bits.
pub fn value_of_code(code: &Vec<char>) -> (value: Option<u64>)
    ensures
        value is Some <==> has_value(code@),
        value matches Some(v) ==> v == code_value(code@),
{
    let n = code.len();
    if n < 2 || code[n - 1] != HOME {
        return None;
    }
    let digits = copy_range(code, 0, n - 1);
    assert(digits@ == code@.drop_last());
    parse_decimal(&digits)
}

/// The score of a code that costs `presses` presses: the presses times the
/// number that the code writes, where that fits in 64 bits.
pub fn score_of(code: &Vec<char>, presses: u64) -> (score: Option<u64>)
    requires
        is_code(code@),
    ensures
        score is Some <==> presses * code_value(code@) <= u64::MAX,
        score matches Some(v) ==> v == presses * code_value(code@),
{
    match value_of_code(code) {
        None => {
            if presses == 0 {
                assert(0 * code_value(code@) == 0);
                Some(0)
            } else {
                assert(presses * code_value(code@) > u64::MAX) by (nonlinear_arith)
                    requires
                        presses >= 1,
                        code_value(code@) > u64::MAX,
                ;
                None
            }
        },
        Some(value) => presses.checked_mul(value),
    }
}

/// The score of `input` when typing it costs `instruction_len` presses.
pub fn calculate_complexity(input: &str, instruction_len: u64) -> (result: Result<u64, CodeError>)
    ensures
        match result {
            Ok(score) => is_code(input@) && score == instruction_len * code_value(input@),
            Err(CodeError::Malformed) => !is_code(input@),
            Err(CodeError::TooLarge) => is_code(input@) && instruction_len * code_value(input@)
                > u64::MAX,
        },
{
    let code = chars_of(input);
    if !is_code_shaped(&code) {
        return Err(CodeError::Malformed);
    }
    match score_of(&code, instruction_len) {
        None => Err(CodeError::TooLarge),
        Some(score) => Ok(score),
    }
}

/// Whether `code` is a code that can be typed on `numeric`.
pub open spec fn valid_code(numeric: &Keypad, code: Seq<char>) -> bool {
    numeric.has_buttons(code) && is_code(code)
}

/// Whether every one of `codes` is valid.
pub open spec fn valid_codes(numeric: &Keypad, codes: Seq<Seq<char>>) -> bool {
    forall|i: int| 0 <= i < codes.len() ==> valid_code(numeric, #[trigger] codes[i])
}

/// The sum of the scores of `codes`, where typing the code at each place
/// costs the count at that place: each count times the number that the code
/// writes.
pub open spec fn total_score(codes: Seq<Seq<char>>, counts: Seq<nat>) -> nat
    decreases codes.len(),
{
    if codes.len() == 0 || counts.len() != codes.len() {
        0
    } else {
        total_score(codes.drop_last(), counts.drop_last()) + counts.last() * code_value(codes.last())
    }
}

/// The sum of the scores of the first codes is no more than that of all.
pub proof fn lemma_total_score_grows(codes: Seq<Seq<char>>, counts: Seq<nat>, n: int)
    requires
        counts.len() == codes.len(),
        0 <= n <= codes.len(),
    ensures
        total_score(codes.take(n), counts.take(n)) <= total_score(codes, counts),
    decreases codes.len() - n,
{
    if n == codes.len() {
        assert(codes.take(n) == codes);
        assert(counts.take(n) == counts);
    } else {
        lemma_total_score_grows(codes, counts, n + 1);
        assert(codes.take(n + 1).drop_last() == codes.take(n));
        assert(counts.take(n + 1).drop_last() == counts.take(n));
    }
}

/// The sum of the scores of two lists of codes, one after the other, is the
/// sum of the two sums.
pub proof fn lemma_total_score_of_both(
    first: Seq<Seq<char>>,
    first_counts: Seq<nat>,
    second: Seq<Seq<char>>,
    second_counts: Seq<nat>,
)
    requires
        first_counts.len() == first.len(),
        second_counts.len() == second.len(),
    ensures
        total_score(first + second, first_counts + second_counts) == total_score(first, first_counts)
            + total_score(second, second_counts),
    decreases second.len(),
{
    if second.len() == 0 {
        assert(first + second == first);
        assert(first_counts + second_counts == first_counts);
    } else {
        lemma_total_score_of_both(first, first_counts, second.drop_last(), second_counts.drop_last());
        assert((first + second).drop_last() == first + second.drop_last());
        assert((first_counts + second_counts).drop_last() == first_counts + second_counts.drop_last());
        assert((first + second).last() == second.last());
        assert((first_counts + second_counts).last() == second_counts.last());
    }
}

/// The counts as numbers without a limit.
pub open spec fn as_counts(counts: Seq<u64>) -> Seq<nat> {
    Seq::new(counts.len(), |i: int| counts[i] as nat)
}

/// The sum of the scores of `codes`, where typing the code at each place
/// costs the count at that place. The largest 64-bit number stands for
/// every count that does not fit: with such a count, and where the sum does
/// not fit in 64 bits, there is no result.
pub fn sum_of_scores(codes: &Vec<Vec<char>>, counts: &Vec<u64>) -> (result: Option<u64>)
    requires
        counts.len() == codes.len(),
        forall|i: int| 0 <= i < codes.len() ==> is_code(#[trigger] codes[i]@),
    ensures
        result is Some <==> (forall|i: int| 0 <= i < counts.len() ==> #[trigger] counts[i] < u64::MAX)
            && total_score(views(codes@), as_counts(counts@)) <= u64::MAX,
        result matches Some(total) ==> total == total_score(views(codes@), as_counts(counts@)),
{
    let ghost all = views(codes@);
    let ghost costs = as_counts(counts@);
    let mut result: u64 = 0;
    let mut i: usize = 0;
    assert(all.take(0) == Seq::<Seq<char>>::empty());
    while i < codes.len()
        invariant
            i <= codes.len(),
            counts.len() == codes.len(),
            all == views(codes@),
            costs == as_counts(counts@),
            forall|i: int| 0 <= i < codes.len() ==> is_code(#[trigger] codes[i]@),
            forall|j: int| 0 <= j < i ==> #[trigger] counts[j] < u64::MAX,
            result == total_score(all.take(i as int), costs.take(i as int)),
        decreases codes.len() - i,
    {
        let code = &codes[i];
        proof {
            assert(all.take(i + 1).drop_last() == all.take(i as int));
            assert(costs.take(i + 1).drop_last() == costs.take(i as int));
            assert(all.take(i + 1).last() == code@);
            assert(costs.take(i + 1).last() == counts[i as int]);
            lemma_total_score_grows(all, costs, i + 1);
        }
        if counts[i] == u64::MAX {
            return None;
        }
        let score = match score_of(code, counts[i]) {
            None => {
                return None;
            },
            Some(score) => score,
        };
        result = match result.checked_add(score) {
            None => {
                return None;
            },
            Some(sum) => sum,
        };
        i += 1;
    }
    proof {
        assert(all.take(i as int) == all);
        assert(costs.take(i as int) == costs);
    }
    Some(result)
}

/// The presses that each of `codes` costs through `robots` directional
/// keypads.
pub open spec fn presses_of(numeric: &Keypad, directional: &Keypad, codes: Seq<Seq<char>>, robots: nat) -> Seq<
    nat,
> {
    Seq::new(codes.len(), |i: int| code_presses(numeric, directional, codes[i], robots))
}

/// The score of `code`: the presses that it costs through `robots`
/// directional keypads, times the number that it writes.
pub open spec fn complexity(numeric: &Keypad, directional: &Keypad, code: Seq<char>, robots: nat) -> nat {
    code_presses(numeric, directional, code, robots) * code_value(code)
}

/// The sum of the scores of `codes`.
pub open spec fn total_complexity(
    numeric: &Keypad,
    directional: &Keypad,
    codes: Seq<Seq<char>>,
    robots: nat,
) -> nat {
    total_score(codes, presses_of(numeric, directional, codes, robots))
}

/// Whether the counts of presses of all of `codes` and the sum of their
/// scores fit in 64 bits, the counts with room to spare.
pub open spec fn fits(numeric: &Keypad, directional: &Keypad, codes: Seq<Seq<char>>, robots: nat) -> bool {
    &&& forall|i: int|
        0 <= i < codes.len() ==> code_presses(numeric, directional, #[trigger] codes[i], robots)
            < u64::MAX
    &&& total_complexity(numeric, directional, codes, robots) <= u64::MAX
}

/// The sum of the scores of a list of codes is the sum of the scores of its
/// codes: that of the list without its last code, and the score of that
/// code.
pub proof fn lemma_total_complexity(
    numeric: &Keypad,
    directional: &Keypad,
    codes: Seq<Seq<char>>,
    robots: nat,
)
    requires
        codes.len() > 0,
    ensures
        total_complexity(numeric, directional, codes, robots) == total_complexity(
            numeric,
            directional,
            codes.drop_last(),
            robots,
        ) + complexity(numeric, directional, codes.last(), robots),
{
    assert(presses_of(numeric, directional, codes, robots).drop_last() == presses_of(
        numeric,
        directional,
        codes.drop_last(),
        robots,
    ));
}

/// The sum of the scores of two lists of codes, one after the other, is the
/// sum of the two sums.
pub proof fn lemma_total_complexity_of_both(
    numeric: &Keypad,
    directional: &Keypad,
    first: Seq<Seq<char>>,
    second: Seq<Seq<char>>,
    robots: nat,
)
    ensures
        total_complexity(numeric, directional, first + second, robots) == total_complexity(
            numeric,
            directional,
            first,
            robots,
        ) + total_complexity(numeric, directional, second, robots),
{
    let one = presses_of(numeric, directional, first, robots);
    let other = presses_of(numeric, directional, second, robots);
    assert(presses_of(numeric, directional, first + second, robots) == one + other);
    lemma_total_score_of_both(first, one, second, other);
}

/// Whether every one of `codes` is a code that can be typed on `numeric`.
fn are_valid_codes(numeric: &Keypad, codes: &Vec<Vec<char>>) -> (valid: bool)
    requires
        numeric.wf(),
    ensures
        valid == valid_codes(numeric, views(codes@)),
{
    let mut i: usize = 0;
    while i < codes.len()
        invariant
            i <= codes.len(),
            numeric.wf(),
            forall|j: int| 0 <= j < i ==> valid_code(numeric, #[trigger] views(codes@)[j]),
        decreases codes.len() - i,
    {
        assert(views(codes@)[i as int] == codes[i as int]@);
        if !numeric.has_all_buttons(&codes[i]) || !is_code_shaped(&codes[i]) {
            return false;
        }
        i += 1;
    }
    true
}

/// The sum of the scores of the codes of `codes`, one on each line, typed
/// on `numeric` through `directional_keypads` keypads like `directional`.
pub fn calculate_complexity_for_numeric_codes(
    numeric: &Keypad,
    directional: &Keypad,
    codes: &str,
    directional_keypads: u8,
) -> (result: Result<u64, CodeError>)
    requires
        numeric.wf(),
        numeric.has_button(HOME),
        directional.wf(),
        directional_keypads >= 1 ==> directional.drives_itself(),
    ensures
        match result {
            Ok(total) => {
                &&& valid_codes(numeric, lines_of(codes@))
                &&& fits(numeric, directional, lines_of(codes@), directional_keypads as nat)
                &&& total == total_complexity(
                    numeric,
                    directional,
                    lines_of(codes@),
                    directional_keypads as nat,
                )
            },
            Err(CodeError::Malformed) => !valid_codes(numeric, lines_of(codes@)),
            Err(CodeError::TooLarge) => valid_codes(numeric, lines_of(codes@)) && !fits(
                numeric,
                directional,
                lines_of(codes@),
                directional_keypads as nat,
            ),
        },
{
    let text = chars_of(codes);
    let lines = lines_of_chars(&text);
    let ghost all = views(lines@);
    let ghost robots = directional_keypads as nat;
    if !are_valid_codes(numeric, &lines) {
        return Err(CodeError::Malformed);
    }
    let mut cache = PressCache::new();
    let mut counts: Vec<u64> = Vec::new();
    let mut i: usize = 0;
    while i < lines.len()
        invariant
            i <= lines.len(),
            all == views(lines@),
            robots == directional_keypads as nat,
            numeric.wf(),
            numeric.has_button(HOME),
            directional.wf(),
            directional_keypads >= 1 ==> directional.drives_itself(),
            cache.wf(directional),
            valid_codes(numeric, all),
            counts.len() == i,
            forall|j: int|
                0 <= j < i ==> #[trigger] counts[j] == capped(
                    code_presses(numeric, directional, all[j], robots),
                ),
        decreases lines.len() - i,
    {
        assert(all[i as int] == lines[i as int]@);
        assert(valid_code(numeric, all[i as int]));
        counts.push(
            get_min_button_presses_for_numeric_code(
                numeric,
                directional,
                &lines[i],
                directional_keypads,
                &mut cache,
            ),
        );
        i += 1;
    }
    proof {
        assert forall|j: int| 0 <= j < lines.len() implies is_code(#[trigger] lines[j]@) by {
            assert(valid_code(numeric, all[j]));
        }
        if forall|j: int| 0 <= j < counts.len() ==> #[trigger] counts[j] < u64::MAX {
            assert forall|j: int| 0 <= j < all.len() implies code_presses(
                numeric,
                directional,
                #[trigger] all[j],
                robots,
            ) < u64::MAX by {
                assert(counts[j] < u64::MAX);
            }
            assert(as_counts(counts@) == presses_of(numeric, directional, all, robots));
        }
    }
    match sum_of_scores(&lines, &counts) {
        None => Err(CodeError::TooLarge),
        Some(total) => Ok(total),
    }
}

/// The lengths of what the human types for each of `codes` with two
/// directional keypads that are driven over the preferred routes alone.
pub open spec fn preferred_presses_of(numeric: &Keypad, directional: &Keypad, codes: Seq<Seq<char>>) -> Seq<
    nat,
> {
    Seq::new(codes.len(), |i: int| least_expanded(directional, numeric.all_sequences(codes[i]), 2))
}

/// The score of `code` with two directional keypads that are driven over
/// the preferred routes alone.
pub open spec fn preferred_complexity(numeric: &Keypad, directional: &Keypad, code: Seq<char>) -> nat {
    least_expanded(directional, numeric.all_sequences(code), 2) * code_value(code)
}

/// The sum of those scores over `codes`.
pub open spec fn total_preferred(numeric: &Keypad, directional: &Keypad, codes: Seq<Seq<char>>) -> nat {
    total_score(codes, preferred_presses_of(numeric, directional, codes))
}

/// Whether the lengths for all of `codes` and the sum of their scores fit
/// in 64 bits, the lengths with room to spare.
pub open spec fn preferred_fits(numeric: &Keypad, directional: &Keypad, codes: Seq<Seq<char>>) -> bool {
    &&& forall|i: int|
        0 <= i < codes.len() ==> least_expanded(
            directional,
            numeric.all_sequences(#[trigger] codes[i]),
            2,
        ) < u64::MAX
    &&& total_preferred(numeric, directional, codes) <= u64::MAX
}

/// The sum of those scores over a list of codes is that of the list without
/// its last code, and the score of that code.
pub proof fn lemma_total_preferred(numeric: &Keypad, directional: &Keypad, codes: Seq<Seq<char>>)
    requires
        codes.len() > 0,
    ensures
        total_preferred(numeric, directional, codes) == total_preferred(
            numeric,
            directional,
            codes.drop_last(),
        ) + preferred_complexity(numeric, directional, codes.last()),
{
    assert(preferred_presses_of(numeric, directional, codes).drop_last() == preferred_presses_of(
        numeric,
        directional,
        codes.drop_last(),
    ));
}

/// The sum of the scores of the codes of `codes`, one on each line, typed
/// on `numeric` through two keypads like `directional` that are driven over
/// the preferred routes alone.
pub fn calculate_complexity_for_numeric_codes_with_two_directional_keypads(
    numeric: &Keypad,
    directional: &Keypad,
    codes: &str,
) -> (result: Result<u64, CodeError>)
    requires
        numeric.wf(),
        numeric.has_button(HOME),
        directional.wf(),
        directional.drives_itself(),
    ensures
        match result {
            Ok(total) => {
                &&& valid_codes(numeric, lines_of(codes@))
                &&& preferred_fits(numeric, directional, lines_of(codes@))
                &&& total == total_preferred(numeric, directional, lines_of(codes@))
            },
            Err(CodeError::Malformed) => !valid_codes(numeric, lines_of(codes@)),
            Err(CodeError::TooLarge) => valid_codes(numeric, lines_of(codes@)) && !preferred_fits(
                numeric,
                directional,
                lines_of(codes@),
            ),
        },
{
    let text = chars_of(codes);
    let lines = lines_of_chars(&text);
    let ghost all = views(lines@);
    if !are_valid_codes(numeric, &lines) {
        return Err(CodeError::Malformed);
    }
    let mut cache = SequenceMemo::new();
    let mut counts: Vec<u64> = Vec::new();
    let mut i: usize = 0;
    while i < lines.len()
        invariant
            i <= lines.len(),
            all == views(lines@),
            numeric.wf(),
            numeric.has_button(HOME),
            directional.wf(),
            directional.drives_itself(),
            cache.wf(directional),
            valid_codes(numeric, all),
            counts.len() == i,
            forall|j: int|
                0 <= j < i ==> #[trigger] counts[j] == capped(
                    least_expanded(directional, numeric.all_sequences(all[j]), 2),
                ),
        decreases lines.len() - i,
    {
        assert(all[i as int] == lines[i as int]@);
        assert(valid_code(numeric, all[i as int]));
        counts.push(
            get_min_presses_for_numeric_code_with_two_directional_keypads(
                numeric,
                directional,
                &lines[i],
                &mut cache,
            ),
        );
        i += 1;
    }
    proof {
        assert forall|j: int| 0 <= j < lines.len() implies is_code(#[trigger] lines[j]@) by {
            assert(valid_code(numeric, all[j]));
        }
        if forall|j: int| 0 <= j < counts.len() ==> #[trigger] counts[j] < u64::MAX {
            assert forall|j: int| 0 <= j < all.len() implies least_expanded(
                directional,
                numeric.all_sequences(#[trigger] all[j]),
                2,
            ) < u64::MAX by {
                assert(counts[j] < u64::MAX);
            }
            assert(as_counts(counts@) == preferred_presses_of(numeric, directional, all));
        }
    }
    match sum_of_scores(&lines, &counts) {
        None => Err(CodeError::TooLarge),
        Some(total) => Ok(total),
    }
}

/// The sum of the scores of codes depends on the grids of the two keypads
/// alone, and so does whether the codes are valid and the scores fit.
pub proof fn lemma_total_complexity_of_the_grids(
    numeric: &Keypad,
    directional: &Keypad,
    other_numeric: &Keypad,
    other_directional: &Keypad,
    codes: Seq<Seq<char>>,
    robots: nat,
)
    requires
        numeric.wf(),
        other_numeric.wf(),
        numeric.grid_view() == other_numeric.grid_view(),
        directional.wf(),
        other_directional.wf(),
        directional.grid_view() == other_directional.grid_view(),
        numeric.has_button(HOME),
        robots >= 1 ==> directional.drives_itself(),
        valid_codes(numeric, codes),
    ensures
        valid_codes(other_numeric, codes),
        total_complexity(numeric, directional, codes, robots) == total_complexity(
            other_numeric,
            other_directional,
            codes,
            robots,
        ),
        fits(numeric, directional, codes, robots) == fits(
            other_numeric,
            other_directional,
            codes,
            robots,
        ),
{
    assert forall|i: int| 0 <= i < codes.len() implies valid_code(other_numeric, #[trigger] codes[i])
        && code_presses(numeric, directional, codes[i], robots) == code_presses(
        other_numeric,
        other_directional,
        codes[i],
        robots,
    ) by {
        assert(valid_code(numeric, codes[i]));
        assert forall|t: int| 0 <= t < codes[i].len() implies other_numeric.has_button(
            #[trigger] codes[i][t],
        ) by {
            lemma_buttons_of_the_grid(numeric, other_numeric, codes[i][t]);
        }
        lemma_code_presses_of_the_grids(
            numeric,
            directional,
            other_numeric,
            other_directional,
            codes[i],
            robots,
        );
    }
    assert(presses_of(numeric, directional, codes, robots) == presses_of(
        other_numeric,
        other_directional,
        codes,
        robots,
    ));
}

/// Whether `numeric` and `directional` are the two keypads of the puzzle.
pub open spec fn are_the_keypads(numeric: &Keypad, directional: &Keypad) -> bool {
    &&& numeric.wf()
    &&& numeric.grid_view() == numeric_layout()
    &&& directional.wf()
    &&& directional.grid_view() == directional_layout()
}

/// Whether `result` is what is owed for codes that are typed on `numeric`
/// through keypads like `directional`: the two sums of their scores, with
/// two directional keypads and with 25; or why there are none.
pub open spec fn is_solved(
    numeric: &Keypad,
    directional: &Keypad,
    codes: Seq<Seq<char>>,
    result: Result<(u64, u64), CodeError>,
) -> bool {
    match result {
        Ok((part1, part2)) => {
            &&& valid_codes(numeric, codes)
            &&& part1 == total_complexity(numeric, directional, codes, 2)
            &&& part2 == total_complexity(numeric, directional, codes, 25)
        },
        Err(CodeError::Malformed) => !valid_codes(numeric, codes),
        Err(CodeError::TooLarge) => {
            &&& valid_codes(numeric, codes)
            &&& (!fits(numeric, directional, codes, 2) || !fits(numeric, directional, codes, 25))
        },
    }
}

/// What is owed for codes is the same for any two keypads with the grids
/// of the numeric and the directional keypad.
pub proof fn lemma_solved_for_the_grids(
    numeric: &Keypad,
    directional: &Keypad,
    other_numeric: &Keypad,
    other_directional: &Keypad,
    codes: Seq<Seq<char>>,
    result: Result<(u64, u64), CodeError>,
)
    requires
        are_the_keypads(numeric, directional),
        are_the_keypads(other_numeric, other_directional),
        is_solved(numeric, directional, codes, result),
    ensures
        is_solved(other_numeric, other_directional, codes, result),
{
    lemma_the_keypads(numeric, directional);
    lemma_the_keypads(other_numeric, other_directional);
    if valid_codes(numeric, codes) {
        lemma_total_complexity_of_the_grids(
            numeric,
            directional,
            other_numeric,
            other_directional,
            codes,
            2,
        );
        lemma_total_complexity_of_the_grids(
            numeric,
            directional,
            other_numeric,
            other_directional,
            codes,
            25,
        );
    } else if valid_codes(other_numeric, codes) {
        lemma_total_complexity_of_the_grids(
            other_numeric,
            other_directional,
            numeric,
            directional,
            codes,
            2,
        );
    }
}

/// The two keypads of the puzzle have the buttons that the codes and the
/// moves need.
pub proof fn lemma_the_keypads(numeric: &Keypad, directional: &Keypad)
    requires
        are_the_keypads(numeric, directional),
    ensures
        numeric.has_button(HOME),
        directional.drives_itself(),
{
    let digits = numeric.grid_view();
    let keys = directional.grid_view();
    assert(digits[3] == seq!['#', '0', 'A']);
    assert(keys[0] == seq!['#', '^', 'A']);
    assert(keys[1] == seq!['<', 'v', '>']);
    lemma_cell_has_button(numeric, Cell { x: 2, y: 3 });
    lemma_cell_has_button(directional, Cell { x: 2, y: 0 });
    lemma_cell_has_button(directional, Cell { x: 1, y: 0 });
    lemma_cell_has_button(directional, Cell { x: 0, y: 1 });
    lemma_cell_has_button(directional, Cell { x: 1, y: 1 });
    lemma_cell_has_button(directional, Cell { x: 2, y: 1 });
}

/// The two sums of scores for the codes of `input`, one on each line, typed
/// on the numeric keypad: with two directional keypads and with 25, each
/// driven as cheaply as can be.
pub fn solve(input: &str) -> (result: Result<(u64, u64), CodeError>)
    ensures
        forall|numeric: &Keypad, directional: &Keypad| #[trigger]
            are_the_keypads(numeric, directional) ==> is_solved(
                numeric,
                directional,
                lines_of(input@),
                result,
            ),
        exists|numeric: &Keypad, directional: &Keypad| #[trigger]
            are_the_keypads(numeric, directional),
{
    let numeric = Keypad::numeric();
    let directional = Keypad::directional();
    assert(is_numeric_button(HOME));
    assert(are_the_keypads(&numeric, &directional));
    let result = solve_with(&numeric, &directional, input);
    proof {
        assert forall|other_numeric: &Keypad, other_directional: &Keypad| #[trigger]
            are_the_keypads(other_numeric, other_directional) implies is_solved(
            other_numeric,
            other_directional,
            lines_of(input@),
            result,
        ) by {
            lemma_solved_for_the_grids(
                &numeric,
                &directional,
                other_numeric,
                other_directional,
                lines_of(input@),
                result,
            );
        }
    }
    result
}

/// The two sums of scores for the codes of `input`, typed on `numeric`
/// through keypads like `directional`.
fn solve_with(numeric: &Keypad, directional: &Keypad, input: &str) -> (result: Result<
    (u64, u64),
    CodeError,
>)
    requires
        numeric.wf(),
        numeric.has_button(HOME),
        directional.wf(),
        directional.drives_itself(),
    ensures
        is_solved(numeric, directional, lines_of(input@), result),
{
    let part1 = match calculate_complexity_for_numeric_codes(numeric, directional, input, 2) {
        Err(error) => {
            return Err(error);
        },
        Ok(part1) => part1,
    };
    let part2 = match calculate_complexity_for_numeric_codes(numeric, directional, input, 25) {
        Err(error) => {
            return Err(error);
        },
        Ok(part2) => part2,
    };
    Ok((part1, part2))
}

} // verus!
