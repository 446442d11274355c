//! A text in which instructions to multiply two numbers stand among other
//! characters, written `mul(x,y)` with one to three digits for each number,
//! and instructions that switch the others off (`don't()`) and on again
//! (`do()`).

use crate::text::{all_digits, chars_of, decimal_value, digit_of, is_digit};
use vstd::prelude::*;

verus! {

/// Whether `word` stands in the text at `at`.
pub open spec fn word_at(text: Seq<char>, at: int, word: Seq<char>) -> bool {
    0 <= at && at + word.len() <= text.len() && text.subrange(at, at + word.len()) == word
}

/// Whether `count` digits stand in the text at `at`, and `stop` after them.
pub open spec fn digits_at(text: Seq<char>, at: int, count: int, stop: char) -> bool {
    0 <= at && at + count < text.len() && all_digits(text.subrange(at, at + count)) && text[at
        + count] == stop
}

/// How many digits, one to three, stand in the text at `at` with `stop`
/// after them; 0 where no such number stands there.
pub open spec fn number_length(text: Seq<char>, at: int, stop: char) -> int {
    if digits_at(text, at, 1, stop) {
        1
    } else if digits_at(text, at, 2, stop) {
        2
    } else if digits_at(text, at, 3, stop) {
        3
    } else {
        0
    }
}

/// The number of `count` digits at `at`.
pub open spec fn number_at(text: Seq<char>, at: int, count: int) -> nat {
    decimal_value(text.subrange(at, at + count))
}

/// The four characters that open a multiplication.
pub open spec fn opening() -> Seq<char> {
    seq!['m', 'u', 'l', '(']
}

/// The characters that switch the multiplications on.
pub open spec fn switch_on() -> Seq<char> {
    seq!['d', 'o', '(', ')']
}

/// The characters that switch the multiplications off.
pub open spec fn switch_off() -> Seq<char> {
    seq!['d', 'o', 'n', '\'', 't', '(', ')']
}

/// Whether a multiplication stands in the text at `at`.
pub open spec fn is_product_at(text: Seq<char>, at: int) -> bool {
    let first = number_length(text, at + 4, ',');
    word_at(text, at, opening()) && first > 0 && number_length(text, at + 5 + first, ')') > 0
}

/// The product of the multiplication at `at`; 0 where none stands there.
pub open spec fn product_at(text: Seq<char>, at: int) -> nat {
    if is_product_at(text, at) {
        let first = number_length(text, at + 4, ',');
        let second = number_length(text, at + 5 + first, ')');
        number_at(text, at + 4, first) * number_at(text, at + 5 + first, second)
    } else {
        0
    }
}

/// The sum of the products of the multiplications that stand before `n`.
pub open spec fn products_before(text: Seq<char>, n: nat) -> nat
    decreases n,
{
    if n == 0 {
        0
    } else {
        products_before(text, (n - 1) as nat) + product_at(text, n - 1)
    }
}

/// Whether the multiplications are switched on after what stands before
/// `n`: they are at the start, and each switch that stands in the text
/// while they are in the other state changes it.
pub open spec fn enabled_before(text: Seq<char>, n: nat) -> bool
    decreases n,
{
    if n == 0 {
        true
    } else if enabled_before(text, (n - 1) as nat) {
        !word_at(text, n - 1, switch_off())
    } else {
        word_at(text, n - 1, switch_on())
    }
}

/// The sum of the products of the multiplications that stand before `n`
/// while the multiplications are switched on.
pub open spec fn enabled_products_before(text: Seq<char>, n: nat) -> nat
    decreases n,
{
    if n == 0 {
        0
    } else {
        enabled_products_before(text, (n - 1) as nat) + if enabled_before(text, (n - 1) as nat) {
            product_at(text, n - 1)
        } else {
            0
        }
    }
}

/// Whether `word` stands in the text at `at`.
fn stands_at(text: &Vec<char>, at: usize, word: &[char]) -> (stands: bool)
    ensures
        stands == word_at(text@, at as int, word@),
{
    if at > text.len() || word.len() > text.len() - at {
        return false;
    }
    let mut i: usize = 0;
    while i < word.len()
        invariant
            i <= word.len(),
            at + word.len() <= text.len(),
            forall|j: int| 0 <= j < i ==> text[at + j] == word[j],
        decreases word.len() - i,
    {
        if text[at + i] != word[i] {
            assert(text@.subrange(at as int, at + word.len())[i as int] == text[at + i]);
            return false;
        }
        i += 1;
    }
    assert(text@.subrange(at as int, at + word.len()) =~= word@);
    true
}

/// The largest number of so many digits.
pub open spec fn nines(count: nat) -> nat
    decreases count,
{
    if count == 0 {
        0
    } else {
        10 * nines((count - 1) as nat) + 9
    }
}

/// A number is no more than the largest with as many digits.
proof fn lemma_number_bound(digits: Seq<char>)
    requires
        all_digits(digits),
    ensures
        decimal_value(digits) <= nines(digits.len()),
    decreases digits.len(),
{
    if digits.len() > 0 {
        assert(is_digit(digits.last()));
        assert forall|i: int| 0 <= i < digits.drop_last().len() implies is_digit(
            #[trigger] digits.drop_last()[i],
        ) by {
            assert(digits.drop_last()[i] == digits[i]);
        }
        lemma_number_bound(digits.drop_last());
    }
}

/// A number of up to three digits is 999 at most.
proof fn lemma_short_number(digits: Seq<char>)
    requires
        all_digits(digits),
        digits.len() <= 3,
    ensures
        decimal_value(digits) <= 999,
{
    lemma_number_bound(digits);
    reveal_with_fuel(nines, 4);
}

/// The number of one to three digits at `at` with `stop` after it, and the
/// number of its digits.
fn read_number(text: &Vec<char>, at: usize, stop: char) -> (found: Option<(u32, usize)>)
    requires
        !is_digit(stop),
    ensures
        found is Some <==> number_length(text@, at as int, stop) > 0,
        found matches Some(number) ==> number.1 == number_length(text@, at as int, stop) && number.0
            == number_at(text@, at as int, number.1 as int) && number.0 <= 999,
{
    let mut value: u32 = 0;
    let mut count: usize = 0;
    while count < 3 && at < text.len() && count < text.len() - at
        invariant
            count <= 3,
            at + count <= text.len() || count == 0,
            count > 0 ==> all_digits(text@.subrange(at as int, at + count)),
            value == if count == 0 {
                0
            } else {
                number_at(text@, at as int, count as int)
            },
            value <= 999,
            forall|k: int| 1 <= k <= count ==> !digits_at(text@, at as int, k, stop),
            !is_digit(stop),
        decreases 3 - count,
    {
        let ghost before = text@.subrange(at as int, at + count);
        let ghost longer = text@.subrange(at as int, at + count + 1);
        match digit_of(text[at + count]) {
            None => {
                proof {
                    assert forall|k: int| count < k <= 3 implies !digits_at(
                        text@,
                        at as int,
                        k,
                        stop,
                    ) by {
                        if at + k < text.len() && all_digits(text@.subrange(at as int, at + k)) {
                            assert(text@.subrange(at as int, at + k)[count as int] == text[at
                                + count]);
                        }
                    }
                }
                return None;
            },
            Some(digit) => {
                proof {
                    assert(longer.drop_last() =~= before);
                    assert(longer.last() == text[at + count]);
                    assert forall|j: int| 0 <= j < longer.len() implies is_digit(
                        #[trigger] longer[j],
                    ) by {
                        if j < count {
                            assert(longer[j] == before[j]);
                        }
                    }
                    if count == 0 {
                        assert(decimal_value(before) == 0);
                    }
                    lemma_short_number(longer);
                }
                value = value * 10 + digit as u32;
                count += 1;
                if at + count < text.len() && text[at + count] == stop {
                    return Some((value, count));
                }
            },
        }
    }
    proof {
        assert forall|k: int| count < k <= 3 implies !digits_at(text@, at as int, k, stop) by {}
    }
    None
}

/// The product of the multiplication at `at`, where one stands there.
fn read_product(text: &Vec<char>, at: usize) -> (found: Option<u32>)
    ensures
        found is Some <==> is_product_at(text@, at as int),
        found matches Some(product) ==> product == product_at(text@, at as int) && product
            <= 998001,
{
    let word = ['m', 'u', 'l', '('];
    assert(word@ =~= opening());
    if !stands_at(text, at, &word) {
        return None;
    }
    let size = text.len();
    assert(opening().len() == 4);
    assert(at + 4 <= size);
    let (x, first) = match read_number(text, at + 4, ',') {
        None => {
            return None;
        },
        Some(number) => number,
    };
    assert(digits_at(text@, at + 4, first as int, ','));
    let (y, second) = match read_number(text, at + 5 + first, ')') {
        None => {
            return None;
        },
        Some(number) => number,
    };
    assert(x * y <= 998001) by (nonlinear_arith)
        requires
            x <= 999,
            y <= 999,
    ;
    Some(x * y)
}

/// The sum of the products of all multiplications in the text, where it
/// fits in 32 bits.
pub fn do_multiplication(input: &str) -> (result: Option<u32>)
    ensures
        result is Some <==> products_before(input@, input@.len()) <= u32::MAX,
        result matches Some(sum) ==> sum == products_before(input@, input@.len()),
{
    let text = chars_of(input);
    let mut result: u32 = 0;
    let mut at: usize = 0;
    while at < text.len()
        invariant
            at <= text.len(),
            text@ == input@,
            result == products_before(text@, at as nat),
        decreases text.len() - at,
    {
        proof {
            lemma_products_grow(text@, (at + 1) as nat, text@.len());
        }
        if let Some(product) = read_product(&text, at) {
            result = match result.checked_add(product) {
                None => {
                    return None;
                },
                Some(sum) => sum,
            };
        }
        at += 1;
    }
    Some(result)
}

/// The sums grow with the text that is looked at.
pub proof fn lemma_products_grow(text: Seq<char>, n: nat, m: nat)
    requires
        n <= m,
    ensures
        products_before(text, n) <= products_before(text, m),
        enabled_products_before(text, n) <= enabled_products_before(text, m),
    decreases m,
{
    if n < m {
        lemma_products_grow(text, n, (m - 1) as nat);
    }
}

/// The sum of the products of the multiplications that stand in the text
/// while the multiplications are switched on, where it fits in 32 bits.
pub fn do_enabled_multiplications(input: &str) -> (result: Option<u32>)
    ensures
        result is Some <==> enabled_products_before(input@, input@.len()) <= u32::MAX,
        result matches Some(sum) ==> sum == enabled_products_before(input@, input@.len()),
{
    let text = chars_of(input);
    let on = ['d', 'o', '(', ')'];
    let off = ['d', 'o', 'n', '\'', 't', '(', ')'];
    assert(on@ =~= switch_on());
    assert(off@ =~= switch_off());
    let mut result: u32 = 0;
    let mut enabled = true;
    let mut at: usize = 0;
    while at < text.len()
        invariant
            at <= text.len(),
            text@ == input@,
            on@ == switch_on(),
            off@ == switch_off(),
            enabled == enabled_before(text@, at as nat),
            result == enabled_products_before(text@, at as nat),
        decreases text.len() - at,
    {
        proof {
            lemma_products_grow(text@, (at + 1) as nat, text@.len());
        }
        if enabled {
            if let Some(product) = read_product(&text, at) {
                result = match result.checked_add(product) {
                    None => {
                        return None;
                    },
                    Some(sum) => sum,
                };
            }
            if stands_at(&text, at, &off) {
                enabled = false;
            }
        } else if stands_at(&text, at, &on) {
            enabled = true;
        }
        at += 1;
    }
    Some(result)
}

/// Both sums of the text.
pub fn solve(input: &str) -> (result: Option<(u32, u32)>)
    ensures
        result is Some <==> products_before(input@, input@.len()) <= u32::MAX,
        result matches Some(sums) ==> sums.0 == products_before(input@, input@.len()) && sums.1
            == enabled_products_before(input@, input@.len()),
{
    let part1 = match do_multiplication(input) {
        None => {
            return None;
        },
        Some(sum) => sum,
    };
    proof {
        lemma_enabled_is_less(input@, input@.len());
    }
    let part2 = match do_enabled_multiplications(input) {
        None => {
            return None;
        },
        Some(sum) => sum,
    };
    Some((part1, part2))
}

/// Switching multiplications off never adds to the sum.
pub proof fn lemma_enabled_is_less(text: Seq<char>, n: nat)
    ensures
        enabled_products_before(text, n) <= products_before(text, n),
    decreases n,
{
    if n > 0 {
        lemma_enabled_is_less(text, (n - 1) as nat);
    }
}

} // verus!
