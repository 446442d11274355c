//! The secret numbers of the buyers at the market: each secret gives the
//! next by three rounds of mixing and pruning, its last digit is the price
//! that the buyer offers, and the monkey sells at the first place where the
//! last four changes of the price are the four that it was told.

use crate::text::{lines, lines_of, parse_decimal, views, all_digits, decimal_value};
use vstd::prelude::*;

verus! {

/// Secrets are pruned to numbers below this one.
pub const PRUNING_NUMBER: u64 = 16777216;

/// The number of secrets that follow the first of a buyer.
pub const ROUNDS: usize = 2000;

/// The number of different runs of four changes: each change lies between
/// -9 and 9.
pub const KEYS: usize = 130321;

/// The secret that follows `secret`: it is mixed, by exclusive or, with
/// itself times 64, with itself divided by 32, and with itself times 2048,
/// and pruned after each.
pub open spec fn next_secret(secret: u64) -> u64 {
    let first = (secret ^ (secret << 6)) % PRUNING_NUMBER;
    let second = (first ^ (first >> 5)) % PRUNING_NUMBER;
    (second ^ (second << 11)) % PRUNING_NUMBER
}

/// The secret that stands `n` places after `secret`.
pub open spec fn nth_secret(secret: u64, n: nat) -> u64
    decreases n,
{
    if n == 0 {
        secret
    } else {
        next_secret(nth_secret(secret, (n - 1) as nat))
    }
}

/// The first `n` prices of the buyer who starts with `secret`.
pub open spec fn prices_of(secret: u64, n: nat) -> Seq<u8> {
    Seq::new(n, |i: int| (nth_secret(secret, i as nat) % 10) as u8)
}

/// Puts the next secret in the place of the secret.
pub fn calculate_next_secret(secret_number: &mut u64)
    ensures
        *final(secret_number) == next_secret(*old(secret_number)),
{
    *secret_number = *secret_number ^ (*secret_number << 6);
    *secret_number = *secret_number % PRUNING_NUMBER;
    *secret_number = *secret_number ^ (*secret_number >> 5);
    *secret_number = *secret_number % PRUNING_NUMBER;
    *secret_number = *secret_number ^ (*secret_number << 11);
    *secret_number = *secret_number % PRUNING_NUMBER;
}

/// Whether a line writes the first secret of a buyer: a number of 32 bits.
pub open spec fn is_secret(line: Seq<char>) -> bool {
    line.len() > 0 && all_digits(line) && decimal_value(line) <= u32::MAX
}

/// The sum of the last secrets of the first `n` buyers.
pub open spec fn sum_of_last(all: Seq<Seq<char>>, n: nat) -> nat
    decreases n,
{
    if n == 0 {
        0
    } else {
        sum_of_last(all, (n - 1) as nat) + nth_secret(
            decimal_value(all[n - 1]) as u64,
            ROUNDS as nat,
        ) as nat
    }
}

/// Whether the lists are the prices of the buyers whose first secrets the
/// lines write, from the first secret of each to its last.
pub open spec fn are_prices_of(all: Seq<Seq<char>>, prices: Seq<Vec<u8>>) -> bool {
    &&& prices.len() == all.len()
    &&& forall|i: int|
        0 <= i < prices.len() ==> (#[trigger] prices[i])@ == prices_of(
            decimal_value(all[i]) as u64,
            (ROUNDS + 1) as nat,
        )
}

/// The sum over the first buyers is no more than the sum over more.
proof fn lemma_sum_of_last_grows(all: Seq<Seq<char>>, n: nat, more: nat)
    requires
        n <= more,
    ensures
        sum_of_last(all, n) <= sum_of_last(all, more),
    decreases more,
{
    if n < more {
        lemma_sum_of_last_grows(all, n, (more - 1) as nat);
    }
}

/// The sum of the last secrets of the buyers, whose first secrets the lines
/// of the text write, with the prices of each; nothing where a line writes
/// no secret, or where the sum does not fit in 64 bits.
pub fn sum_of_2000th_secret_numbers(input: &str) -> (result: Option<(u64, Vec<Vec<u8>>)>)
    ensures
        result is Some <==> (forall|i: int|
            0 <= i < lines_of(input@).len() ==> is_secret(#[trigger] lines_of(input@)[i]))
            && sum_of_last(lines_of(input@), lines_of(input@).len()) <= u64::MAX,
        result matches Some(found) ==> found.0 == sum_of_last(
            lines_of(input@),
            lines_of(input@).len(),
        ) && are_prices_of(lines_of(input@), found.1@),
{
    let rows = lines(input);
    let ghost all = views(rows@);
    let mut sequences: Vec<Vec<u8>> = Vec::new();
    let mut sum: u64 = 0;
    let mut i: usize = 0;
    while i < rows.len()
        invariant
            i <= rows.len(),
            all == views(rows@),
            all == lines_of(input@),
            sequences.len() == i,
            forall|j: int| 0 <= j < i ==> is_secret(#[trigger] all[j]),
            sum == sum_of_last(all, i as nat),
            forall|j: int|
                0 <= j < i ==> (#[trigger] sequences[j])@ == prices_of(
                    decimal_value(all[j]) as u64,
                    (ROUNDS + 1) as nat,
                ),
        decreases rows.len() - i,
    {
        assert(all[i as int] == rows[i as int]@);
        let first_secret_number = match parse_decimal(&rows[i]) {
            None => {
                return None;
            },
            Some(number) => number,
        };
        if first_secret_number > u32::MAX as u64 {
            return None;
        }
        let mut working_secret_number = first_secret_number;
        let mut sequence: Vec<u8> = Vec::new();
        sequence.push((working_secret_number % 10) as u8);
        assert(sequence@ == prices_of(first_secret_number, 1));
        let mut n: usize = 0;
        while n < ROUNDS
            invariant
                n <= ROUNDS,
                working_secret_number == nth_secret(first_secret_number, n as nat),
                sequence@ == prices_of(first_secret_number, (n + 1) as nat),
            decreases ROUNDS - n,
        {
            calculate_next_secret(&mut working_secret_number);
            sequence.push((working_secret_number % 10) as u8);
            n += 1;
            assert(sequence@ == prices_of(first_secret_number, (n + 1) as nat));
        }
        proof {
            lemma_sum_of_last_grows(all, (i + 1) as nat, all.len());
        }
        sum = match sum.checked_add(working_secret_number) {
            None => {
                return None;
            },
            Some(sum) => sum,
        };
        sequences.push(sequence);
        i += 1;
    }
    Some((sum, sequences))
}

/// Whether every price is a digit.
pub open spec fn are_prices(prices: Seq<u8>) -> bool {
    forall|i: int| 0 <= i < prices.len() ==> #[trigger] prices[i] <= 9
}

/// The change from the price before place `i` to the price at it, raised by
/// 9 so that it is not below 0.
pub open spec fn change_at(prices: Seq<u8>, i: int) -> int {
    9 + prices[i] - prices[i - 1]
}

/// The number of the four changes that end at place `i`.
pub open spec fn key_at(prices: Seq<u8>, i: int) -> int {
    ((change_at(prices, i - 3) * 19 + change_at(prices, i - 2)) * 19 + change_at(prices, i - 1))
        * 19 + change_at(prices, i)
}

/// The price at which the monkey sells among the first `n` prices when it
/// waits for the changes of number `key`: the price at the first place
/// where they have occurred, or nothing.
pub open spec fn sale(prices: Seq<u8>, key: int, n: int) -> int
    decreases n,
{
    if n <= 4 {
        0
    } else if sold_before(prices, key, n - 1) {
        sale(prices, key, n - 1)
    } else if key_at(prices, n - 1) == key {
        prices[n - 1] as int
    } else {
        0
    }
}

/// Whether the changes of number `key` end at one of the first `n` prices.
pub open spec fn sold_before(prices: Seq<u8>, key: int, n: int) -> bool
    decreases n,
{
    n > 4 && (sold_before(prices, key, n - 1) || key_at(prices, n - 1) == key)
}

/// The bananas that the changes of number `key` bring from the first `n`
/// buyers.
pub open spec fn bananas(sequences: Seq<Vec<u8>>, key: int, n: nat) -> int
    decreases n,
{
    if n == 0 {
        0
    } else {
        bananas(sequences, key, (n - 1) as nat) + sale(
            sequences[n - 1]@,
            key,
            sequences[n - 1]@.len() as int,
        )
    }
}

/// The most bananas that one of the first `keys` runs of changes brings.
pub open spec fn most_bananas(sequences: Seq<Vec<u8>>, keys: nat) -> int
    decreases keys,
{
    if keys == 0 {
        0
    } else {
        let rest = most_bananas(sequences, (keys - 1) as nat);
        let last = bananas(sequences, keys - 1, sequences.len());
        if last > rest {
            last
        } else {
            rest
        }
    }
}

proof fn lemma_bananas_grow(sequences: Seq<Vec<u8>>, key: int, n: nat, more: nat)
    requires
        n <= more <= sequences.len(),
        forall|i: int| 0 <= i < sequences.len() ==> are_prices(#[trigger] sequences[i]@),
    ensures
        0 <= bananas(sequences, key, n) <= bananas(sequences, key, more),
        bananas(sequences, key, n) <= 9 * n,
    decreases more,
{
    if n < more {
        lemma_bananas_grow(sequences, key, n, (more - 1) as nat);
        lemma_sale_is_a_price(sequences[more - 1]@, key, sequences[more - 1]@.len() as int);
    }
    if n > 0 {
        lemma_bananas_grow(sequences, key, (n - 1) as nat, (n - 1) as nat);
        lemma_sale_is_a_price(sequences[n - 1]@, key, sequences[n - 1]@.len() as int);
    }
}

proof fn lemma_sale_is_a_price(prices: Seq<u8>, key: int, n: int)
    requires
        are_prices(prices),
        n <= prices.len(),
    ensures
        0 <= sale(prices, key, n) <= 9,
    decreases n,
{
    if n > 4 {
        lemma_sale_is_a_price(prices, key, n - 1);
    }
}

/// The most bananas that the monkey can get from the buyers with these
/// prices when it is told one run of four changes; nothing where there are
/// more than 7000 buyers, too many for the bananas to be counted in 16 bits.
pub fn find_best_banana_buy(price_sequences: Vec<Vec<u8>>) -> (best: Option<u16>)
    requires
        forall|i: int| 0 <= i < price_sequences.len() ==> are_prices(#[trigger] price_sequences[i]@),
    ensures
        best is Some <==> price_sequences.len() <= 7000,
        best matches Some(most) ==> most == most_bananas(price_sequences@, KEYS as nat),
{
    if price_sequences.len() > 7000 {
        return None;
    }
    let ghost all = price_sequences@;
    let mut bananas_by_sequence: Vec<u16> = Vec::new();
    let mut last_seller: Vec<usize> = Vec::new();
    let mut k: usize = 0;
    while k < KEYS
        invariant
            k <= KEYS,
            bananas_by_sequence.len() == k,
            last_seller.len() == k,
            forall|j: int| 0 <= j < k ==> #[trigger] bananas_by_sequence[j] == 0,
            forall|j: int| 0 <= j < k ==> #[trigger] last_seller[j] == 0,
        decreases KEYS - k,
    {
        bananas_by_sequence.push(0);
        last_seller.push(0);
        k += 1;
    }
    let mut s: usize = 0;
    while s < price_sequences.len()
        invariant
            s <= price_sequences.len() <= 7000,
            all == price_sequences@,
            forall|i: int| 0 <= i < all.len() ==> are_prices(#[trigger] all[i]@),
            bananas_by_sequence.len() == KEYS,
            last_seller.len() == KEYS,
            forall|j: int| 0 <= j < KEYS ==> #[trigger] bananas_by_sequence[j] == bananas(all, j, s as nat),
            forall|j: int| 0 <= j < KEYS ==> #[trigger] last_seller[j] <= s,
        decreases price_sequences.len() - s,
    {
        let price_sequence = &price_sequences[s];
        let ghost prices = price_sequence@;
        assert(are_prices(all[s as int]@));
        let mut i: usize = 4;
        while i < price_sequence.len()
            invariant
                4 <= i,
                s < price_sequences.len() <= 7000,
                all == price_sequences@,
                price_sequence == price_sequences[s as int],
                prices == price_sequence@,
                are_prices(prices),
                forall|j: int| 0 <= j < all.len() ==> are_prices(#[trigger] all[j]@),
                bananas_by_sequence.len() == KEYS,
                last_seller.len() == KEYS,
                i <= prices.len() || (prices.len() < 4 && i == 4),
                forall|j: int|
                    0 <= j < KEYS ==> #[trigger] bananas_by_sequence[j] == bananas(all, j, s as nat)
                        + sale(prices, j, i as int),
                forall|j: int| 0 <= j < KEYS ==> #[trigger] last_seller[j] <= s + 1,
                forall|j: int|
                    0 <= j < KEYS ==> ((#[trigger] last_seller[j]) == s + 1 <==> sold_before(
                        prices,
                        j,
                        i as int,
                    )),
            decreases price_sequence.len() - i,
        {
            let first = 9 + price_sequence[i - 3] - price_sequence[i - 4];
            let second = 9 + price_sequence[i - 2] - price_sequence[i - 3];
            let third = 9 + price_sequence[i - 1] - price_sequence[i - 2];
            let fourth = 9 + price_sequence[i] - price_sequence[i - 1];
            let key = ((first as usize * 19 + second as usize) * 19 + third as usize) * 19
                + fourth as usize;
            let price = price_sequence[i];
            assert(key == key_at(prices, i as int));
            proof {
                lemma_bananas_grow(all, key as int, s as nat, s as nat);
                lemma_sale_is_a_price(prices, key as int, i as int);
            }
            if last_seller[key] != s + 1 {
                last_seller.set(key, s + 1);
                bananas_by_sequence.set(key, bananas_by_sequence[key] + price as u16);
            }
            i += 1;
        }
        proof {
            assert forall|j: int| 0 <= j < KEYS implies #[trigger] bananas_by_sequence[j] == bananas(
                all,
                j,
                (s + 1) as nat,
            ) by {
                assert(all[s as int]@ == prices);
                assert(bananas_by_sequence[j] == bananas(all, j, s as nat) + sale(prices, j, i as int));
                if prices.len() < 4 {
                    assert(sale(prices, j, prices.len() as int) == 0);
                    assert(sale(prices, j, 4) == 0);
                } else {
                    assert(i == prices.len());
                }
                assert(bananas(all, j, (s + 1) as nat) == bananas(all, j, s as nat) + sale(
                    all[s as int]@,
                    j,
                    all[s as int]@.len() as int,
                ));
            }
        }
        s += 1;
    }
    let mut best: u16 = 0;
    let mut k: usize = 0;
    while k < KEYS
        invariant
            k <= KEYS,
            all == price_sequences@,
            bananas_by_sequence.len() == KEYS,
            forall|j: int| 0 <= j < KEYS ==> #[trigger] bananas_by_sequence[j] == bananas(all, j, all.len()),
            best == most_bananas(all, k as nat),
        decreases KEYS - k,
    {
        if bananas_by_sequence[k] > best {
            best = bananas_by_sequence[k];
        }
        k += 1;
    }
    Some(best)
}

/// The sum of the last secrets of the buyers, and the most bananas that the
/// monkey can get; nothing where a line writes no secret, where the sum does
/// not fit in 64 bits, or where there are more than 7000 buyers.
pub fn solve(input: &str) -> (result: Option<(u64, u16)>)
    ensures
        result is Some <==> (forall|i: int|
            0 <= i < lines_of(input@).len() ==> is_secret(#[trigger] lines_of(input@)[i]))
            && sum_of_last(lines_of(input@), lines_of(input@).len()) <= u64::MAX && lines_of(
            input@,
        ).len() <= 7000,
        result matches Some(found) ==> found.0 == sum_of_last(
            lines_of(input@),
            lines_of(input@).len(),
        ) && exists|prices: Seq<Vec<u8>>| #[trigger]
            are_prices_of(lines_of(input@), prices) && found.1 == most_bananas(prices, KEYS as nat),
{
    let (part1, secret_number_sequences) = match sum_of_2000th_secret_numbers(input) {
        None => {
            return None;
        },
        Some(found) => found,
    };
    let ghost prices = secret_number_sequences@;
    proof {
        assert forall|i: int| 0 <= i < secret_number_sequences.len() implies are_prices(
            #[trigger] secret_number_sequences[i]@,
        ) by {}
    }
    match find_best_banana_buy(secret_number_sequences) {
        None => None,
        Some(part2) => {
            let result = Some((part1, part2));
            proof {
                assert(are_prices_of(lines_of(input@), prices) && result->Some_0.1 == most_bananas(
                    prices,
                    KEYS as nat,
                ));
            }
            result
        },
    }
}

} // verus!
