//! Two lists of numbers, which stand side by side on the lines of a text:
//! their distance, taken place by place once both are sorted, and their
//! similarity, in which every number of the left list counts as often as it
//! stands in the right one.

use crate::text::{
    is_signed_number, lines, lines_of, parse_signed, signed_value, split_whitespace, views, words_of,
};
use vstd::prelude::*;
use vstd::relations::{sorted_by, total_ordering};
use vstd::seq_lib::{lemma_sorted_unique, to_multiset_build, to_multiset_insert};

verus! {

broadcast use {vstd::seq_lib::group_to_multiset_ensures, vstd::multiset::group_multiset_axioms};

/// The order of the numbers.
pub open spec fn at_most() -> spec_fn(i32, i32) -> bool {
    |a: i32, b: i32| a <= b
}

/// The numbers in rising order.
pub open spec fn sorted_of(numbers: Seq<i32>) -> Seq<i32> {
    numbers.sort_by(at_most())
}

proof fn lemma_at_most_orders()
    ensures
        total_ordering(at_most()),
{
    assert(vstd::relations::reflexive(at_most()));
    assert(vstd::relations::antisymmetric(at_most()));
    assert(vstd::relations::transitive(at_most()));
    assert(vstd::relations::strongly_connected(at_most()));
}

/// The numbers in rising order.
pub fn sort_numbers(numbers: Vec<i32>) -> (sorted: Vec<i32>)
    ensures
        sorted@ == sorted_of(numbers@),
{
    let mut sorted: Vec<i32> = Vec::new();
    let mut rest = numbers;
    let ghost all = rest@;
    assert(sorted@.to_multiset() =~= vstd::multiset::Multiset::<i32>::empty());
    assert(sorted@.to_multiset().add(rest@.to_multiset()) =~= all.to_multiset());
    while rest.len() > 0
        invariant
            sorted_by(sorted@, at_most()),
            sorted@.to_multiset().add(rest@.to_multiset()) == all.to_multiset(),
        decreases rest.len(),
    {
        let ghost left = rest@;
        let ghost done = sorted@;
        let number = rest.pop().unwrap();
        proof {
            assert(left == rest@.push(number));
            to_multiset_build(rest@, number);
        }
        let mut at: usize = sorted.len();
        while at > 0 && number < sorted[at - 1]
            invariant
                at <= sorted.len(),
                forall|j: int| at <= j < sorted.len() ==> number < sorted[j],
            decreases at,
        {
            at -= 1;
        }
        sorted.insert(at, number);
        proof {
            to_multiset_insert(done, at as int, number);
            assert(sorted@ == done.insert(at as int, number));
            assert(sorted_by(sorted@, at_most())) by {
                assert forall|i: int, j: int| 0 <= i < j < sorted@.len() implies #[trigger] at_most()(
                    sorted@[i],
                    sorted@[j],
                ) by {
                    if j < at {
                        assert(at_most()(done[i], done[j]));
                    } else if j == at {
                        if at > 0 {
                            assert(at_most()(done[i], done[at - 1]));
                        }
                    } else if i < at {
                        assert(at_most()(done[i], done[j - 1]));
                    } else if i == at {
                    } else {
                        assert(at_most()(done[i - 1], done[j - 1]));
                    }
                }
            }
            assert(sorted@.to_multiset().add(rest@.to_multiset()) =~= all.to_multiset());
        }
    }
    proof {
        lemma_at_most_orders();
        all.lemma_sort_by_ensures(at_most());
        assert(rest@ == Seq::<i32>::empty());
        assert(rest@.to_multiset() =~= vstd::multiset::Multiset::<i32>::empty());
        assert(sorted@.to_multiset() =~= all.to_multiset());
        lemma_sorted_unique(sorted@, sorted_of(all), at_most());
    }
    sorted
}

/// The sum of the differences between the first `n` numbers of the two
/// lists, taken place by place.
pub open spec fn distance(left: Seq<i32>, right: Seq<i32>, n: nat) -> int
    decreases n,
{
    if n == 0 {
        0
    } else {
        let difference = left[n - 1] - right[n - 1];
        distance(left, right, (n - 1) as nat) + if difference < 0 {
            -difference
        } else {
            difference
        }
    }
}

/// The sum of those of the first `n` numbers of the list that are `number`.
pub open spec fn weight_of(number: i32, list: Seq<i32>, n: nat) -> int
    decreases n,
{
    if n == 0 {
        0
    } else {
        weight_of(number, list, (n - 1) as nat) + if list[n - 1] == number {
            number as int
        } else {
            0int
        }
    }
}

/// The sum, over the first `n` numbers of the left list, of the number times
/// its count in the right list.
pub open spec fn similarity(left: Seq<i32>, right: Seq<i32>, n: nat) -> int
    decreases n,
{
    if n == 0 {
        0
    } else {
        similarity(left, right, (n - 1) as nat) + weight_of(left[n - 1], right, right.len())
    }
}

/// Whether a line holds two numbers of 32 bits.
pub open spec fn is_pair(line: Seq<char>) -> bool {
    let words = words_of(line);
    &&& words.len() >= 2
    &&& is_number(words[0])
    &&& is_number(words.last())
}

/// Whether a word writes a number of 32 bits.
pub open spec fn is_number(word: Seq<char>) -> bool {
    is_signed_number(word) && i32::MIN <= signed_value(word) <= i32::MAX
}

/// The numbers that the lines hold on their left.
pub open spec fn left_of(all: Seq<Seq<char>>) -> Seq<i32> {
    Seq::new(all.len(), |i: int| signed_value(words_of(all[i])[0]) as i32)
}

/// The numbers that the lines hold on their right.
pub open spec fn right_of(all: Seq<Seq<char>>) -> Seq<i32> {
    Seq::new(all.len(), |i: int| signed_value(words_of(all[i]).last()) as i32)
}

/// A number of 32 bits that a word writes.
fn read_number(word: &Vec<char>) -> (number: Option<i32>)
    ensures
        number is Some <==> is_number(word@),
        number matches Some(n) ==> n == signed_value(word@),
{
    match parse_signed(word, 2147483648) {
        None => None,
        Some(value) => {
            if value > 2147483647 {
                None
            } else {
                Some(value as i32)
            }
        },
    }
}

/// The two lists of the text.
pub fn parse(input: &str) -> (result: Option<(Vec<i32>, Vec<i32>)>)
    ensures
        result is Some <==> forall|i: int|
            0 <= i < lines_of(input@).len() ==> is_pair(#[trigger] lines_of(input@)[i]),
        result matches Some(lists) ==> lists.0@ == left_of(lines_of(input@)) && lists.1@ == right_of(
            lines_of(input@),
        ),
{
    let rows = lines(input);
    let ghost all = views(rows@);
    let mut left_list: Vec<i32> = Vec::new();
    let mut right_list: Vec<i32> = Vec::new();
    let mut i: usize = 0;
    while i < rows.len()
        invariant
            i <= rows.len(),
            all == views(rows@),
            all == lines_of(input@),
            forall|j: int| 0 <= j < i ==> is_pair(#[trigger] all[j]),
            left_list@ == left_of(all).take(i as int),
            right_list@ == right_of(all).take(i as int),
        decreases rows.len() - i,
    {
        assert(all[i as int] == rows[i as int]@);
        let parts = split_whitespace(&rows[i]);
        if parts.len() < 2 {
            assert(!is_pair(all[i as int]));
            return None;
        }
        assert(views(parts@)[0] == parts[0]@);
        assert(views(parts@).last() == parts[parts.len() - 1]@);
        match (read_number(&parts[0]), read_number(&parts[parts.len() - 1])) {
            (Some(left), Some(right)) => {
                left_list.push(left);
                right_list.push(right);
                assert(left_list@ == left_of(all).take(i + 1));
                assert(right_list@ == right_of(all).take(i + 1));
            },
            _ => {
                assert(!is_pair(all[i as int]));
                return None;
            },
        }
        i += 1;
    }
    assert(left_of(all).take(i as int) == left_of(all));
    assert(right_of(all).take(i as int) == right_of(all));
    Some((left_list, right_list))
}

/// The distance of two lists of the same length, where it fits in 32 bits.
pub fn total_distance(left: &Vec<i32>, right: &Vec<i32>) -> (result: Option<i32>)
    requires
        left.len() == right.len(),
    ensures
        result is Some <==> distance(left@, right@, left.len() as nat) <= i32::MAX,
        result matches Some(sum) ==> sum == distance(left@, right@, left.len() as nat),
{
    let mut sum: i64 = 0;
    let mut i: usize = 0;
    while i < left.len()
        invariant
            i <= left.len(),
            left.len() == right.len(),
            0 <= sum <= i32::MAX,
            sum == distance(left@, right@, i as nat),
        decreases left.len() - i,
    {
        let difference = left[i] as i64 - right[i] as i64;
        let size = if difference < 0 {
            -difference
        } else {
            difference
        };
        proof {
            lemma_distance_grows(left@, right@, (i + 1) as nat, left.len() as nat);
        }
        sum = sum + size;
        if sum > 2147483647 {
            return None;
        }
        i += 1;
    }
    Some(sum as i32)
}

proof fn lemma_distance_grows(left: Seq<i32>, right: Seq<i32>, n: nat, more: nat)
    requires
        n <= more,
    ensures
        0 <= distance(left, right, n) <= distance(left, right, more),
    decreases more,
{
    if n < more {
        lemma_distance_grows(left, right, n, (more - 1) as nat);
    } else if n > 0 {
        lemma_distance_grows(left, right, (n - 1) as nat, (n - 1) as nat);
    }
}

/// Whether a sum lies in the range of 32 bits.
pub open spec fn in_range(sum: int) -> bool {
    i32::MIN <= sum <= i32::MAX
}

/// Whether the weight of `number` stays in the range of 32 bits while the
/// first `n` numbers of the list are added up.
pub open spec fn weight_fits(number: i32, list: Seq<i32>, n: nat) -> bool
    decreases n,
{
    n == 0 || (weight_fits(number, list, (n - 1) as nat) && in_range(weight_of(number, list, n)))
}

/// Whether the similarity stays in the range of 32 bits while it is added
/// up over the first `n` numbers of the left list, and each weight with it.
pub open spec fn similarity_fits(left: Seq<i32>, right: Seq<i32>, n: nat) -> bool
    decreases n,
{
    n == 0 || (similarity_fits(left, right, (n - 1) as nat) && weight_fits(
        left[n - 1],
        right,
        right.len(),
    ) && in_range(similarity(left, right, n)))
}

/// A weight that has left the range does not fit whatever follows.
proof fn lemma_weight_stays_out(number: i32, list: Seq<i32>, n: nat, more: nat)
    requires
        n <= more,
        !weight_fits(number, list, n),
    ensures
        !weight_fits(number, list, more),
    decreases more,
{
    if n < more {
        lemma_weight_stays_out(number, list, n, (more - 1) as nat);
    }
}

/// A similarity that has left the range does not fit whatever follows.
proof fn lemma_similarity_stays_out(left: Seq<i32>, right: Seq<i32>, n: nat, more: nat)
    requires
        n <= more,
        !similarity_fits(left, right, n),
    ensures
        !similarity_fits(left, right, more),
    decreases more,
{
    if n < more {
        lemma_similarity_stays_out(left, right, n, (more - 1) as nat);
    }
}

/// The similarity of two lists: the sum, over the numbers of the left
/// list, of the number times its count in the right list; nothing where a
/// sum on the way to it leaves the range of 32 bits.
pub fn total_similarity(left: &Vec<i32>, right: &Vec<i32>) -> (result: Option<i32>)
    ensures
        result is Some <==> similarity_fits(left@, right@, left.len() as nat),
        result matches Some(sum) ==> sum == similarity(left@, right@, left.len() as nat),
{
    let mut sum: i32 = 0;
    let mut i: usize = 0;
    while i < left.len()
        invariant
            i <= left.len(),
            sum == similarity(left@, right@, i as nat),
            similarity_fits(left@, right@, i as nat),
        decreases left.len() - i,
    {
        let number = left[i];
        let mut inner: i32 = 0;
        let mut j: usize = 0;
        while j < right.len()
            invariant
                j <= right.len(),
                i < left.len(),
                number == left[i as int],
                inner == weight_of(number, right@, j as nat),
                weight_fits(number, right@, j as nat),
            decreases right.len() - j,
        {
            if right[j] == number {
                inner = match inner.checked_add(number) {
                    None => {
                        proof {
                            assert(!weight_fits(number, right@, (j + 1) as nat));
                            lemma_weight_stays_out(number, right@, (j + 1) as nat, right@.len());
                            assert(!similarity_fits(left@, right@, (i + 1) as nat));
                            lemma_similarity_stays_out(left@, right@, (i + 1) as nat, left@.len());
                        }
                        return None;
                    },
                    Some(more) => more,
                };
            }
            j += 1;
        }
        sum = match sum.checked_add(inner) {
            None => {
                proof {
                    assert(!similarity_fits(left@, right@, (i + 1) as nat));
                    lemma_similarity_stays_out(left@, right@, (i + 1) as nat, left@.len());
                }
                return None;
            },
            Some(more) => more,
        };
        i += 1;
    }
    Some(sum)
}

/// The distance and the similarity of the two lists of the text, each list
/// sorted; nothing where a line holds no pair of numbers, or where a sum
/// does not fit.
pub fn solve(input: &str) -> (result: Option<(i32, i32)>)
    ensures
        result is Some <==> {
            let left = sorted_of(left_of(lines_of(input@)));
            let right = sorted_of(right_of(lines_of(input@)));
            &&& forall|i: int|
                0 <= i < lines_of(input@).len() ==> is_pair(#[trigger] lines_of(input@)[i])
            &&& distance(left, right, left.len()) <= i32::MAX
            &&& similarity_fits(left, right, left.len())
        },
        result matches Some(found) ==> {
            let left = sorted_of(left_of(lines_of(input@)));
            let right = sorted_of(right_of(lines_of(input@)));
            &&& found.0 == distance(left, right, left.len())
            &&& found.1 == similarity(left, right, left.len())
        },
{
    let (left_list, right_list) = match parse(input) {
        None => {
            return None;
        },
        Some(lists) => lists,
    };
    let ghost left_before = left_list@;
    let ghost right_before = right_list@;
    let left_list = sort_numbers(left_list);
    let right_list = sort_numbers(right_list);
    proof {
        lemma_at_most_orders();
        left_before.lemma_sort_by_ensures(at_most());
        right_before.lemma_sort_by_ensures(at_most());
        vstd::seq_lib::to_multiset_len(left_before);
        vstd::seq_lib::to_multiset_len(right_before);
        vstd::seq_lib::to_multiset_len(left_list@);
        vstd::seq_lib::to_multiset_len(right_list@);
    }
    let part1 = match total_distance(&left_list, &right_list) {
        None => {
            return None;
        },
        Some(sum) => sum,
    };
    match total_similarity(&left_list, &right_list) {
        None => None,
        Some(part2) => Some((part1, part2)),
    }
}

} // verus!
