//! Stones with a number engraved on each, which change at every blink: a
//! stone without a number or with a nought gets a one, a stone with an
//! even number of characters splits in two halves, and the number of any
//! other stone is multiplied by 2024.

use crate::text::{
    all_digits, chars_of, copy_range, decimal_of, decimal_value, parse_decimal, same_chars,
    split_whitespace, to_decimal, views, words_of,
};
use std::collections::VecDeque;
use vstd::arithmetic::mul::{lemma_mul_inequality, lemma_mul_is_distributive_add};
use vstd::prelude::*;

verus! {

/// The text without the noughts at its start.
pub open spec fn without_zeros(s: Seq<char>) -> Seq<char>
    decreases s.len(),
{
    if s.len() > 0 && s[0] == '0' {
        without_zeros(s.drop_first())
    } else {
        s
    }
}

/// The digits of an engraving: what follows the plus sign, where it starts
/// with one.
pub open spec fn digits_of(engraving: Seq<char>) -> Seq<char> {
    if engraving.len() > 0 && engraving[0] == '+' {
        engraving.drop_first()
    } else {
        engraving
    }
}

/// Whether the engraving writes a number of 64 bits.
pub open spec fn is_number(engraving: Seq<char>) -> bool {
    let digits = digits_of(engraving);
    digits.len() > 0 && all_digits(digits) && decimal_value(digits) <= u64::MAX
}

/// The number that the engraving writes.
pub open spec fn number_of(engraving: Seq<char>) -> nat {
    decimal_value(digits_of(engraving))
}

/// Whether the stone has no number or a nought.
pub open spec fn is_nought(engraving: Seq<char>) -> bool {
    engraving.len() == 0 || engraving == seq!['0']
}

/// Whether the stone can change at a blink: all can but those with an odd
/// number of characters that write no number, or one that is too large to
/// be multiplied.
pub open spec fn can_blink(engraving: Seq<char>) -> bool {
    is_nought(engraving) || engraving.len() % 2 == 0 || (is_number(engraving) && number_of(
        engraving,
    ) * 2024 <= u64::MAX)
}

/// The stones that a stone becomes at a blink.
pub open spec fn blink(engraving: Seq<char>) -> Seq<Seq<char>> {
    if is_nought(engraving) {
        seq![seq!['1']]
    } else if engraving.len() % 2 == 0 {
        seq![
            engraving.take(engraving.len() as int / 2),
            without_zeros(engraving.skip(engraving.len() as int / 2)),
        ]
    } else if can_blink(engraving) {
        seq![decimal_of(number_of(engraving) * 2024)]
    } else {
        Seq::empty()
    }
}

/// Whether the stone, and all that it becomes, can change at each of so
/// many blinks.
pub open spec fn blinkable(engraving: Seq<char>, blinks: nat) -> bool
    decreases blinks,
{
    blinks == 0 || (can_blink(engraving) && forall|i: int|
        0 <= i < blink(engraving).len() ==> blinkable(
            #[trigger] blink(engraving)[i],
            (blinks - 1) as nat,
        ))
}

/// How many stones the given stones are after so many blinks.
pub open spec fn total_after(stones: Seq<Seq<char>>, blinks: nat) -> nat
    decreases blinks, stones.len(),
{
    if stones.len() == 0 {
        0
    } else {
        total_after(stones.drop_last(), blinks) + if blinks == 0 {
            1
        } else {
            total_after(blink(stones.last()), (blinks - 1) as nat)
        }
    }
}

/// How many stones one stone is after so many blinks.
pub open spec fn count_after(engraving: Seq<char>, blinks: nat) -> nat {
    total_after(seq![engraving], blinks)
}

/// Whether each of the stones is blinkable so many times.
pub open spec fn all_blinkable(stones: Seq<Seq<char>>, blinks: nat) -> bool {
    forall|i: int| 0 <= i < stones.len() ==> blinkable(#[trigger] stones[i], blinks)
}

/// The stones of two rows are as many as those of the one and those of the
/// other.
pub proof fn lemma_total_of_both(a: Seq<Seq<char>>, b: Seq<Seq<char>>, blinks: nat)
    ensures
        total_after(a + b, blinks) == total_after(a, blinks) + total_after(b, blinks),
    decreases b.len(),
{
    if b.len() == 0 {
        assert(a + b == a);
    } else {
        assert((a + b).drop_last() == a + b.drop_last());
        assert((a + b).last() == b.last());
        lemma_total_of_both(a, b.drop_last(), blinks);
    }
}

/// One stone counts once before a blink, and as what it becomes after one.
pub proof fn lemma_count_after(engraving: Seq<char>, blinks: nat)
    ensures
        count_after(engraving, blinks) == if blinks == 0 {
            1
        } else {
            total_after(blink(engraving), (blinks - 1) as nat)
        },
{
    let one = seq![engraving];
    assert(one.drop_last() == Seq::<Seq<char>>::empty());
    assert(one.last() == engraving);
    assert(total_after(one.drop_last(), blinks) == 0);
}

/// The stones are as many as the first and the others.
pub proof fn lemma_total_first(stones: Seq<Seq<char>>, blinks: nat)
    requires
        stones.len() > 0,
    ensures
        total_after(stones, blinks) == count_after(stones[0], blinks) + total_after(
            stones.drop_first(),
            blinks,
        ),
{
    assert(stones == seq![stones[0]] + stones.drop_first());
    lemma_total_of_both(seq![stones[0]], stones.drop_first(), blinks);
}

/// The characters from `from` on without the noughts at their start.
fn trim_start_zeros(s: &Vec<char>, from: usize) -> (rest: Vec<char>)
    requires
        from <= s.len(),
    ensures
        rest@ == without_zeros(s@.skip(from as int)),
{
    let mut k: usize = from;
    while k < s.len() && s[k] == '0'
        invariant
            from <= k <= s.len(),
            without_zeros(s@.skip(from as int)) == without_zeros(s@.skip(k as int)),
        decreases s.len() - k,
    {
        assert(s@.skip(k as int).drop_first() == s@.skip(k + 1));
        k += 1;
    }
    copy_range(s, k, s.len())
}

/// The number that the engraving writes.
fn read_number(engraving: &Vec<char>) -> (number: Option<u64>)
    ensures
        number is Some <==> is_number(engraving@),
        number matches Some(n) ==> n == number_of(engraving@),
{
    if engraving.len() > 0 && engraving[0] == '+' {
        let digits = copy_range(engraving, 1, engraving.len());
        assert(digits@ == engraving@.drop_first());
        parse_decimal(&digits)
    } else {
        parse_decimal(engraving)
    }
}

/// The stones that a stone becomes at a blink; nothing where it cannot
/// change.
pub fn blink_stone(engraving: &Vec<char>) -> (stones: Option<Vec<Vec<char>>>)
    ensures
        stones is Some <==> can_blink(engraving@),
        stones matches Some(found) ==> views(found@) == blink(engraving@),
{
    let mut stones: Vec<Vec<char>> = Vec::new();
    if engraving.len() == 0 || (engraving.len() == 1 && engraving[0] == '0') {
        let mut one: Vec<char> = Vec::new();
        one.push('1');
        assert(one@ == seq!['1']);
        assert(engraving.len() == 1 ==> engraving@ =~= seq!['0']);
        stones.push(one);
        assert(views(stones@) =~= blink(engraving@));
        Some(stones)
    } else {
        assert(!is_nought(engraving@)) by {
            if engraving@ == seq!['0'] {
                assert(seq!['0'].len() == 1);
                assert(seq!['0'][0] == '0');
            }
        }
        if engraving.len() % 2 == 0 {
            let half = engraving.len() / 2;
            let left = copy_range(engraving, 0, half);
            let right = trim_start_zeros(engraving, half);
            assert(left@ == engraving@.take(half as int));
            stones.push(left);
            stones.push(right);
            assert(views(stones@) =~= blink(engraving@));
            Some(stones)
        } else {
            match read_number(engraving) {
                None => None,
                Some(number) => match number.checked_mul(2024) {
                    None => None,
                    Some(value) => {
                        stones.push(to_decimal(value));
                        assert(views(stones@) =~= blink(engraving@));
                        Some(stones)
                    },
                },
            }
        }
    }
}

/// A stone that waits for its blinks: its engraving, and how many blinks
/// are left for it.
pub type Waiting = (Vec<char>, u8);

/// The sum of what `f` gives for each item.
pub open spec fn sum_of<T>(items: Seq<T>, f: spec_fn(T) -> nat) -> nat
    decreases items.len(),
{
    if items.len() == 0 {
        0
    } else {
        sum_of(items.drop_last(), f) + f(items.last())
    }
}

/// The sum is what the first item gives and the sum of the others.
pub proof fn lemma_sum_first<T>(items: Seq<T>, f: spec_fn(T) -> nat)
    requires
        items.len() > 0,
    ensures
        sum_of(items, f) == f(items[0]) + sum_of(items.drop_first(), f),
    decreases items.len(),
{
    if items.len() == 1 {
        assert(items.drop_last() == Seq::<T>::empty());
        assert(items.drop_first() == Seq::<T>::empty());
        assert(sum_of(items.drop_last(), f) == 0);
    } else {
        lemma_sum_first(items.drop_last(), f);
        assert(items.drop_last().drop_first() == items.drop_first().drop_last());
        assert(items.drop_first().last() == items.last());
    }
}

/// Three to the power of `n`.
pub open spec fn heavy(n: nat) -> nat
    decreases n,
{
    if n == 0 {
        1
    } else {
        3 * heavy((n - 1) as nat)
    }
}

proof fn lemma_heavy_is_positive(n: nat)
    ensures
        heavy(n) >= 1,
    decreases n,
{
    if n > 0 {
        lemma_heavy_is_positive((n - 1) as nat);
    }
}

/// How much work a waiting stone stands for.
pub open spec fn work() -> spec_fn(Waiting) -> nat {
    |stone: Waiting| heavy(stone.1 as nat)
}

/// How many stones a waiting stone stands for.
pub open spec fn stands_for() -> spec_fn(Waiting) -> nat {
    |stone: Waiting| count_after(stone.0@, stone.1 as nat)
}

/// Whether each of the waiting stones can take the blinks left for it.
pub open spec fn all_can_wait(queue: Seq<Waiting>) -> bool {
    forall|i: int| 0 <= i < queue.len() ==> blinkable((#[trigger] queue[i]).0@, queue[i].1 as nat)
}

/// Whether `after` is `before` with the stones `kids` at its end, each with
/// so many blinks left.
pub open spec fn queued(
    before: Seq<Waiting>,
    after: Seq<Waiting>,
    kids: Seq<Seq<char>>,
    blinks: u8,
) -> bool {
    &&& after.len() == before.len() + kids.len()
    &&& forall|i: int| 0 <= i < before.len() ==> #[trigger] after[i] == before[i]
    &&& forall|k: int|
        0 <= k < kids.len() ==> (#[trigger] after[before.len() + k]).0@ == kids[k] && after[before.len()
            + k].1 == blinks
}

/// Puts the stones that a stone becomes at a blink at the end of the queue;
/// says whether the stone could change.
pub fn blink_single_stone_using_queue(
    queue: &mut VecDeque<Waiting>,
    engraving: Vec<char>,
    blinks: u8,
) -> (changed: bool)
    ensures
        changed == can_blink(engraving@),
        changed ==> queued(old(queue)@, final(queue)@, blink(engraving@), blinks),
        !changed ==> final(queue)@ == old(queue)@,
{
    match blink_stone(&engraving) {
        None => false,
        Some(stones) => {
            let ghost kids = views(stones@);
            let mut stones = stones;
            let ghost before = queue@;
            assert(kids.len() == 1 || kids.len() == 2);
            if stones.len() == 2 {
                let right = stones.pop().unwrap();
                let left = stones.pop().unwrap();
                assert(left@ == kids[0] && right@ == kids[1]);
                queue.push_back((left, blinks));
                queue.push_back((right, blinks));
            } else {
                let only = stones.pop().unwrap();
                assert(only@ == kids[0]);
                queue.push_back((only, blinks));
            }
            true
        },
    }
}

/// What stones at the end of the queue add to a sum.
proof fn lemma_queued_sum(
    before: Seq<Waiting>,
    after: Seq<Waiting>,
    kids: Seq<Seq<char>>,
    blinks: u8,
    f: spec_fn(Waiting) -> nat,
)
    requires
        queued(before, after, kids, blinks),
        kids.len() == 1 || kids.len() == 2,
    ensures
        sum_of(after, f) == sum_of(before, f) + f(after[before.len() as int]) + if kids.len() == 2 {
            f(after[before.len() as int + 1])
        } else {
            0
        },
{
    let n = before.len() as int;
    let first = before.push(after[n]);
    assert(first.drop_last() == before);
    assert(first.last() == after[n]);
    assert(sum_of(first, f) == sum_of(before, f) + f(after[n]));
    if kids.len() == 1 {
        assert(after =~= first);
    } else {
        assert(after =~= first.push(after[n + 1]));
        assert(after.drop_last() == first);
        assert(after.last() == after[n + 1]);
    }
}

/// How many stones one or two stones are after so many blinks.
proof fn lemma_total_of_kids(kids: Seq<Seq<char>>, blinks: nat)
    requires
        kids.len() == 1 || kids.len() == 2,
    ensures
        total_after(kids, blinks) == count_after(kids[0], blinks) + if kids.len() == 2 {
            count_after(kids[1], blinks)
        } else {
            0
        },
{
    lemma_total_first(kids, blinks);
    if kids.len() == 1 {
        assert(kids.drop_first() =~= Seq::<Seq<char>>::empty());
    } else {
        lemma_total_first(kids.drop_first(), blinks);
        assert(kids.drop_first().drop_first() =~= Seq::<Seq<char>>::empty());
        assert(kids.drop_first()[0] == kids[1]);
    }
}

/// The stones in a queue that has grown can wait where those before could,
/// and the new ones can.
proof fn lemma_queued_can_wait(
    before: Seq<Waiting>,
    after: Seq<Waiting>,
    kids: Seq<Seq<char>>,
    blinks: u8,
)
    requires
        queued(before, after, kids, blinks),
    ensures
        all_can_wait(after) <==> all_can_wait(before) && all_blinkable(kids, blinks as nat),
{
    let n = before.len() as int;
    if all_can_wait(after) {
        assert forall|i: int| 0 <= i < before.len() implies blinkable(
            (#[trigger] before[i]).0@,
            before[i].1 as nat,
        ) by {
            assert(after[i] == before[i]);
        }
        assert forall|k: int| 0 <= k < kids.len() implies blinkable(
            #[trigger] kids[k],
            blinks as nat,
        ) by {
            assert(after[n + k].0@ == kids[k]);
        }
    }
    if all_can_wait(before) && all_blinkable(kids, blinks as nat) {
        assert forall|i: int| 0 <= i < after.len() implies blinkable(
            (#[trigger] after[i]).0@,
            after[i].1 as nat,
        ) by {
            if i < n {
                assert(after[i] == before[i]);
            } else {
                assert(after[n + (i - n)].0@ == kids[i - n]);
            }
        }
    }
}

/// What the stones at the end of the queue add to the sums.
proof fn lemma_queued(before: Seq<Waiting>, after: Seq<Waiting>, kids: Seq<Seq<char>>, blinks: u8)
    requires
        queued(before, after, kids, blinks),
        kids.len() == 1 || kids.len() == 2,
    ensures
        sum_of(after, stands_for()) == sum_of(before, stands_for()) + total_after(
            kids,
            blinks as nat,
        ),
        sum_of(after, work()) <= sum_of(before, work()) + 2 * heavy(blinks as nat),
        all_can_wait(after) <==> all_can_wait(before) && all_blinkable(kids, blinks as nat),
{
    let n = before.len() as int;
    lemma_queued_sum(before, after, kids, blinks, stands_for());
    lemma_queued_sum(before, after, kids, blinks, work());
    lemma_total_of_kids(kids, blinks as nat);
    lemma_queued_can_wait(before, after, kids, blinks);
    assert(after[n + 0].0@ == kids[0]);
    assert(stands_for()(after[n]) == count_after(kids[0], blinks as nat));
    assert(work()(after[n]) == heavy(blinks as nat));
    if kids.len() == 2 {
        assert(after[n + 1].0@ == kids[1]);
        assert(stands_for()(after[n + 1]) == count_after(kids[1], blinks as nat));
        assert(work()(after[n + 1]) == heavy(blinks as nat));
    }
}

/// How many stones the given stones are after so many blinks, each stone
/// taken through its blinks by itself; nothing where a stone cannot change
/// or the stones cannot be counted.
pub fn brute_force_blinking(stones: &Vec<Vec<char>>, number_of_blinks: u8) -> (result: Option<usize>)
    ensures
        result is Some <==> all_blinkable(views(stones@), number_of_blinks as nat) && total_after(
            views(stones@),
            number_of_blinks as nat,
        ) <= usize::MAX,
        result matches Some(count) ==> count == total_after(
            views(stones@),
            number_of_blinks as nat,
        ),
{
    let ghost all = views(stones@);
    let ghost total = total_after(all, number_of_blinks as nat);
    let mut queue: VecDeque<Waiting> = VecDeque::new();
    let mut i: usize = 0;
    assert(all.take(0) =~= Seq::<Seq<char>>::empty());
    while i < stones.len()
        invariant
            i <= stones.len(),
            all == views(stones@),
            queue@.len() == i,
            forall|j: int| 0 <= j < i ==> (#[trigger] queue@[j]).0@ == all[j] && queue@[j].1 == number_of_blinks,
            sum_of(queue@, stands_for()) == total_after(all.take(i as int), number_of_blinks as nat),
        decreases stones.len() - i,
    {
        let stone = copy_range(&stones[i], 0, stones[i].len());
        assert(stone@ == all[i as int]);
        let ghost before = queue@;
        queue.push_back((stone, number_of_blinks));
        proof {
            assert(queue@.drop_last() == before);
            assert(all.take(i + 1).drop_last() == all.take(i as int));
            assert(all.take(i + 1).last() == all[i as int]);
            lemma_count_after(all[i as int], number_of_blinks as nat);
        }
        i += 1;
    }
    assert(all.take(i as int) == all);
    assert(all_can_wait(queue@) <==> all_blinkable(all, number_of_blinks as nat)) by {
        if all_can_wait(queue@) {
            assert forall|j: int| 0 <= j < all.len() implies blinkable(
                #[trigger] all[j],
                number_of_blinks as nat,
            ) by {
                assert(queue@[j].0@ == all[j]);
            }
        }
    }
    let mut result: usize = 0;
    while queue.len() > 0
        invariant
            result + sum_of(queue@, stands_for()) == total,
            all == views(stones@),
            all_can_wait(queue@) <==> all_blinkable(all, number_of_blinks as nat),
            total == total_after(all, number_of_blinks as nat),
        decreases sum_of(queue@, work()),
    {
        let ghost before = queue@;
        let (engraving, remaining_blinks) = queue.pop_front().unwrap();
        proof {
            lemma_sum_first(before, stands_for());
            lemma_sum_first(before, work());
            lemma_count_after(engraving@, remaining_blinks as nat);
            assert(before[0] == (engraving, remaining_blinks));
            assert(stands_for()(before[0]) == count_after(engraving@, remaining_blinks as nat));
            assert(work()(before[0]) == heavy(remaining_blinks as nat));
            lemma_heavy_is_positive(remaining_blinks as nat);
            if remaining_blinks > 0 {
                lemma_heavy_is_positive((remaining_blinks - 1) as nat);
            }
            assert(all_can_wait(before) <==> all_can_wait(queue@) && blinkable(
                engraving@,
                remaining_blinks as nat,
            )) by {
                if all_can_wait(before) {
                    assert(blinkable(before[0].0@, before[0].1 as nat));
                    assert forall|j: int| 0 <= j < queue@.len() implies blinkable(
                        (#[trigger] queue@[j]).0@,
                        queue@[j].1 as nat,
                    ) by {
                        assert(queue@[j] == before[j + 1]);
                    }
                }
                if all_can_wait(queue@) && blinkable(engraving@, remaining_blinks as nat) {
                    assert forall|j: int| 0 <= j < before.len() implies blinkable(
                        (#[trigger] before[j]).0@,
                        before[j].1 as nat,
                    ) by {
                        if j > 0 {
                            assert(before[j] == queue@[j - 1]);
                        }
                    }
                }
            }
        }
        if remaining_blinks == 0 {
            result = match result.checked_add(1) {
                None => {
                    return None;
                },
                Some(more) => more,
            };
        } else {
            let ghost rest = queue@;
            let ghost stone = engraving@;
            if !blink_single_stone_using_queue(&mut queue, engraving, remaining_blinks - 1) {
                return None;
            }
            proof {
                assert(blink(stone).len() == 1 || blink(stone).len() == 2);
                lemma_queued(rest, queue@, blink(stone), (remaining_blinks - 1) as u8);
            }
        }
    }
    assert(queue@ =~= Seq::<Waiting>::empty());
    Some(result)
}

/// Stones with the same engraving, and how many they are.
#[derive(Debug)]
pub struct StoneCount {
    pub engraving: Vec<char>,
    pub count: usize,
}

/// How many stones an entry stands for after so many blinks.
pub open spec fn worth(blinks: nat) -> spec_fn(StoneCount) -> nat {
    |entry: StoneCount| (entry.count * count_after(entry.engraving@, blinks)) as nat
}

/// How many stones the entries stand for after so many blinks.
pub open spec fn weighted(entries: Seq<StoneCount>, blinks: nat) -> nat {
    sum_of(entries, worth(blinks))
}

/// Whether no engraving stands twice among the entries.
pub open spec fn distinct(entries: Seq<StoneCount>) -> bool {
    forall|i: int, j: int|
        0 <= i < j < entries.len() ==> (#[trigger] entries[i]).engraving@ != (
        #[trigger] entries[j]).engraving@
}

/// Whether each of the engravings is blinkable so many times.
pub open spec fn fine(entries: Seq<StoneCount>, blinks: nat) -> bool {
    forall|i: int| 0 <= i < entries.len() ==> blinkable((#[trigger] entries[i]).engraving@, blinks)
}

/// A sum changes with one of its items by what the item gives more or less.
pub proof fn lemma_sum_update<T>(items: Seq<T>, i: int, item: T, f: spec_fn(T) -> nat)
    requires
        0 <= i < items.len(),
    ensures
        sum_of(items.update(i, item), f) + f(items[i]) == sum_of(items, f) + f(item),
    decreases items.len(),
{
    let changed = items.update(i, item);
    if i == items.len() - 1 {
        assert(changed.drop_last() == items.drop_last());
    } else {
        assert(changed.drop_last() == items.drop_last().update(i, item));
        lemma_sum_update(items.drop_last(), i, item, f);
    }
}

/// The sum of the first items is no more than the sum of all.
pub proof fn lemma_sum_of_first<T>(items: Seq<T>, n: int, f: spec_fn(T) -> nat)
    requires
        0 <= n <= items.len(),
    ensures
        sum_of(items.take(n), f) <= sum_of(items, f),
    decreases items.len(),
{
    if n == items.len() {
        assert(items.take(n) == items);
    } else {
        assert(items.drop_last().take(n) == items.take(n));
        lemma_sum_of_first(items.drop_last(), n, f);
    }
}

/// No item gives more than the sum.
pub proof fn lemma_sum_holds_each<T>(items: Seq<T>, i: int, f: spec_fn(T) -> nat)
    requires
        0 <= i < items.len(),
    ensures
        f(items[i]) <= sum_of(items, f),
    decreases items.len(),
{
    if i < items.len() - 1 {
        lemma_sum_holds_each(items.drop_last(), i, f);
    }
}

/// The place of the entry with this engraving, where there is one.
fn find_entry(entries: &Vec<StoneCount>, engraving: &Vec<char>) -> (found: Option<usize>)
    ensures
        match found {
            Some(i) => i < entries.len() && entries[i as int].engraving@ == engraving@,
            None => forall|i: int|
                0 <= i < entries.len() ==> (#[trigger] entries[i]).engraving@ != engraving@,
        },
{
    let mut i: usize = 0;
    while i < entries.len()
        invariant
            i <= entries.len(),
            forall|j: int| 0 <= j < i ==> (#[trigger] entries[j]).engraving@ != engraving@,
        decreases entries.len() - i,
    {
        if same_chars(&entries[i].engraving, engraving) {
            return Some(i);
        }
        i += 1;
    }
    None
}

/// Counts so many stones more with this engraving; says whether their
/// number fits, and changes nothing where it does not.
pub fn add_count(entries: &mut Vec<StoneCount>, engraving: Vec<char>, count: usize) -> (added: bool)
    requires
        distinct(old(entries)@),
    ensures
        distinct(final(entries)@),
        added ==> forall|b: nat| #[trigger]
            weighted(final(entries)@, b) == weighted(old(entries)@, b) + count * count_after(
                engraving@,
                b,
            ),
        added ==> forall|b: nat| #[trigger]
            fine(final(entries)@, b) == (fine(old(entries)@, b) && blinkable(engraving@, b)),
        !added ==> final(entries)@ == old(entries)@ && weighted(old(entries)@, 0) + count
            > usize::MAX,
{
    let ghost before = entries@;
    match find_entry(entries, &engraving) {
        Some(i) => {
            let ghost entry = entries[i as int];
            match entries[i].count.checked_add(count) {
                None => {
                    proof {
                        lemma_sum_holds_each(before, i as int, worth(0));
                        lemma_count_after(entry.engraving@, 0);
                        assert(worth(0)(entry) == entry.count * 1);
                    }
                    false
                },
                Some(sum) => {
                    entries[i].count = sum;
                    proof {
                        let after = entries@;
                        assert(after == before.update(i as int, after[i as int]));
                        assert(after[i as int].engraving@ == engraving@);
                        assert forall|b: nat| #[trigger]
                            weighted(after, b) == weighted(before, b) + count * count_after(
                                engraving@,
                                b,
                            ) by {
                            lemma_sum_update(before, i as int, after[i as int], worth(b));
                            let each = count_after(engraving@, b);
                            assert(worth(b)(entry) == entry.count * each);
                            assert(worth(b)(after[i as int]) == (entry.count + count) * each);
                            lemma_mul_is_distributive_add(
                                each as int,
                                entry.count as int,
                                count as int,
                            );
                            assert((entry.count + count) * each == each * (entry.count + count))
                                by (nonlinear_arith);
                            assert(entry.count * each == each * entry.count) by (nonlinear_arith);
                            assert(count * each == each * count) by (nonlinear_arith);
                        }
                        assert forall|b: nat| #[trigger]
                            fine(after, b) == (fine(before, b) && blinkable(engraving@, b)) by {
                            if fine(after, b) {
                                assert(blinkable(after[i as int].engraving@, b));
                                assert forall|j: int| 0 <= j < before.len() implies blinkable(
                                    (#[trigger] before[j]).engraving@,
                                    b,
                                ) by {
                                    assert(after[j].engraving@ == before[j].engraving@);
                                }
                            }
                            if fine(before, b) && blinkable(engraving@, b) {
                                assert forall|j: int| 0 <= j < after.len() implies blinkable(
                                    (#[trigger] after[j]).engraving@,
                                    b,
                                ) by {
                                    assert(after[j].engraving@ == before[j].engraving@);
                                }
                            }
                        }
                        assert forall|j: int, k: int| 0 <= j < k < after.len() implies (
                        #[trigger] after[j]).engraving@ != (#[trigger] after[k]).engraving@ by {
                            assert(after[j].engraving@ == before[j].engraving@);
                            assert(after[k].engraving@ == before[k].engraving@);
                        }
                    }
                    true
                },
            }
        },
        None => {
            let ghost key = engraving@;
            entries.push(StoneCount { engraving, count });
            proof {
                let after = entries@;
                assert(after.drop_last() == before);
                assert forall|b: nat| #[trigger]
                    weighted(after, b) == weighted(before, b) + count * count_after(key, b) by {
                    assert(worth(b)(after.last()) == count * count_after(key, b));
                }
                assert forall|b: nat| #[trigger]
                    fine(after, b) == (fine(before, b) && blinkable(key, b)) by {
                    if fine(after, b) {
                        assert(blinkable(after[before.len() as int].engraving@, b));
                        assert forall|j: int| 0 <= j < before.len() implies blinkable(
                            (#[trigger] before[j]).engraving@,
                            b,
                        ) by {
                            assert(after[j] == before[j]);
                        }
                    }
                    if fine(before, b) && blinkable(key, b) {
                        assert forall|j: int| 0 <= j < after.len() implies blinkable(
                            (#[trigger] after[j]).engraving@,
                            b,
                        ) by {
                            if j < before.len() {
                                assert(after[j] == before[j]);
                            }
                        }
                    }
                }
                assert forall|j: int, k: int| 0 <= j < k < after.len() implies (
                #[trigger] after[j]).engraving@ != (#[trigger] after[k]).engraving@ by {
                    assert(after[j] == before[j]);
                    if k < before.len() {
                        assert(after[k] == before[k]);
                    }
                }
            }
            true
        },
    }
}

/// A stone that can take so many blinks can take fewer.
pub proof fn lemma_blinkable_fewer(engraving: Seq<char>, blinks: nat, fewer: nat)
    requires
        blinkable(engraving, blinks),
        fewer <= blinks,
    ensures
        blinkable(engraving, fewer),
    decreases blinks,
{
    if fewer > 0 {
        assert forall|i: int| 0 <= i < blink(engraving).len() implies blinkable(
            #[trigger] blink(engraving)[i],
            (fewer - 1) as nat,
        ) by {
            lemma_blinkable_fewer(blink(engraving)[i], (blinks - 1) as nat, (fewer - 1) as nat);
        }
    }
}

/// A blink leaves no fewer stones than there were.
pub proof fn lemma_count_grows(engraving: Seq<char>, blinks: nat)
    requires
        blinkable(engraving, blinks + 1),
    ensures
        count_after(engraving, blinks) <= count_after(engraving, blinks + 1),
    decreases blinks,
{
    let kids = blink(engraving);
    assert(kids.len() == 1 || kids.len() == 2);
    lemma_count_after(engraving, blinks);
    lemma_count_after(engraving, blinks + 1);
    lemma_total_of_kids(kids, blinks);
    lemma_count_after(kids[0], 0);
    if kids.len() == 2 {
        lemma_count_after(kids[1], 0);
    }
    if blinks > 0 {
        lemma_total_of_kids(kids, (blinks - 1) as nat);
        assert(blinkable(kids[0], blinks));
        lemma_count_grows(kids[0], (blinks - 1) as nat);
        if kids.len() == 2 {
            assert(blinkable(kids[1], blinks));
            lemma_count_grows(kids[1], (blinks - 1) as nat);
        }
    }
}

/// More blinks leave no fewer stones.
pub proof fn lemma_weighted_grows(entries: Seq<StoneCount>, fewer: nat, blinks: nat)
    requires
        fine(entries, blinks),
        fewer <= blinks,
    ensures
        weighted(entries, fewer) <= weighted(entries, blinks),
    decreases blinks - fewer, entries.len(),
{
    if fewer < blinks {
        if entries.len() == 0 {
        } else {
            let entry = entries.last();
            assert forall|i: int| 0 <= i < entries.drop_last().len() implies blinkable(
                (#[trigger] entries.drop_last()[i]).engraving@,
                blinks,
            ) by {
                assert(entries.drop_last()[i] == entries[i]);
            }
            lemma_weighted_grows(entries.drop_last(), fewer, blinks);
            assert(blinkable(entries[entries.len() - 1].engraving@, blinks));
            lemma_entry_grows(entry, fewer, blinks);
        }
    }
}

proof fn lemma_entry_grows(entry: StoneCount, fewer: nat, blinks: nat)
    requires
        blinkable(entry.engraving@, blinks),
        fewer <= blinks,
    ensures
        worth(fewer)(entry) <= worth(blinks)(entry),
    decreases blinks - fewer,
{
    if fewer < blinks {
        lemma_blinkable_fewer(entry.engraving@, blinks, fewer + 1);
        lemma_count_grows(entry.engraving@, fewer);
        lemma_entry_grows(entry, fewer + 1, blinks);
        lemma_mul_inequality(
            count_after(entry.engraving@, fewer) as int,
            count_after(entry.engraving@, fewer + 1) as int,
            entry.count as int,
        );
        assert(entry.count * count_after(entry.engraving@, fewer) == count_after(
            entry.engraving@,
            fewer,
        ) * entry.count) by (nonlinear_arith);
        assert(entry.count * count_after(entry.engraving@, fewer + 1) == count_after(
            entry.engraving@,
            fewer + 1,
        ) * entry.count) by (nonlinear_arith);
    }
}

/// Entries that can take so many blinks can take fewer.
pub proof fn lemma_fine_fewer(entries: Seq<StoneCount>, blinks: nat, fewer: nat)
    requires
        fine(entries, blinks),
        fewer <= blinks,
    ensures
        fine(entries, fewer),
{
    assert forall|i: int| 0 <= i < entries.len() implies blinkable(
        (#[trigger] entries[i]).engraving@,
        fewer,
    ) by {
        lemma_blinkable_fewer(entries[i].engraving@, blinks, fewer);
    }
}

/// The stones of one blink, with their numbers: each entry gives its number
/// to the stones that its engraving becomes. Nothing where a stone cannot
/// change or a number does not fit.
pub fn blink_hashmap_of_stones(stones: &Vec<StoneCount>) -> (result: Option<Vec<StoneCount>>)
    requires
        distinct(stones@),
    ensures
        result matches Some(next) ==> {
            &&& distinct(next@)
            &&& fine(stones@, 1)
            &&& forall|b: nat| #[trigger] weighted(next@, b) == weighted(stones@, b + 1)
            &&& forall|b: nat| #[trigger] fine(next@, b) == fine(stones@, b + 1)
        },
        result is None ==> !fine(stones@, 1) || weighted(stones@, 1) > usize::MAX,
{
    let mut result: Vec<StoneCount> = Vec::new();
    let mut i: usize = 0;
    assert(stones@.take(0) =~= Seq::<StoneCount>::empty());
    while i < stones.len()
        invariant
            i <= stones.len(),
            distinct(result@),
            fine(stones@.take(i as int), 1),
            forall|b: nat| #[trigger] weighted(result@, b) == weighted(stones@.take(i as int), b + 1),
            forall|b: nat| #[trigger] fine(result@, b) == fine(stones@.take(i as int), b + 1),
        decreases stones.len() - i,
    {
        let ghost done = stones@.take(i as int);
        let ghost more = stones@.take(i + 1);
        let ghost entry = stones[i as int];
        let ghost kids = blink(entry.engraving@);
        let ghost before = result@;
        let count = stones[i].count;
        proof {
            assert(more.drop_last() == done);
            assert(more.last() == entry);
            lemma_sum_of_first(stones@, i + 1, worth(1));
            lemma_count_after(entry.engraving@, 1);
            assert(worth(1)(entry) == count * total_after(kids, 0));
            assert(weighted(before, 0) == weighted(done, 1));
            assert forall|b: nat| #[trigger] fine(more, b) == (fine(done, b) && blinkable(entry.engraving@, b)) by {
                if fine(more, b) {
                    assert(blinkable(more[i as int].engraving@, b));
                    assert forall|j: int| 0 <= j < done.len() implies blinkable(
                        (#[trigger] done[j]).engraving@,
                        b,
                    ) by {
                        assert(more[j] == done[j]);
                    }
                }
                if fine(done, b) && blinkable(entry.engraving@, b) {
                    assert forall|j: int| 0 <= j < more.len() implies blinkable(
                        (#[trigger] more[j]).engraving@,
                        b,
                    ) by {
                        if j < done.len() {
                            assert(more[j] == done[j]);
                        }
                    }
                }
            }
        }
        let mut new_stones = match blink_stone(&stones[i].engraving) {
            None => {
                proof {
                    assert(!blinkable(stones@[i as int].engraving@, 1));
                }
                return None;
            },
            Some(new_stones) => new_stones,
        };
        assert(kids == views(new_stones@));
        assert(kids.len() == 1 || kids.len() == 2);
        proof {
            lemma_total_of_kids(kids, 0);
            lemma_count_after(kids[0], 0);
            if kids.len() == 2 {
                lemma_count_after(kids[1], 0);
            }
            assert(count * total_after(kids, 0) >= count) by (nonlinear_arith)
                requires
                    total_after(kids, 0) >= 1,
            ;
        }
        let right = if new_stones.len() == 2 {
            new_stones.pop()
        } else {
            None
        };
        let left = new_stones.pop().unwrap();
        assert(left@ == kids[0]);
        if !add_count(&mut result, left, count) {
            return None;
        }
        let ghost middle = result@;
        assert(weighted(middle, 0) == weighted(before, 0) + count * count_after(kids[0], 0));
        match right {
            None => {},
            Some(right) => {
                assert(right@ == kids[1]);
                proof {
                    assert(count * total_after(kids, 0) == count + count) by (nonlinear_arith)
                        requires
                            total_after(kids, 0) == 2,
                    ;
                    assert(count * count_after(kids[0], 0) == count) by (nonlinear_arith)
                        requires
                            count_after(kids[0], 0) == 1,
                    ;
                }
                if !add_count(&mut result, right, count) {
                    return None;
                }
            },
        }
        proof {
            let after = result@;
            assert forall|b: nat| #[trigger] weighted(after, b) == weighted(more, b + 1) by {
                lemma_count_after(entry.engraving@, b + 1);
                lemma_total_of_kids(kids, b);
                assert(worth(b + 1)(entry) == count * total_after(kids, b));
                assert(weighted(before, b) == weighted(done, b + 1));
                assert(weighted(middle, b) == weighted(before, b) + count * count_after(kids[0], b));
                if kids.len() == 2 {
                    assert(weighted(after, b) == weighted(middle, b) + count * count_after(
                        kids[1],
                        b,
                    ));
                    lemma_mul_is_distributive_add(
                        count as int,
                        count_after(kids[0], b) as int,
                        count_after(kids[1], b) as int,
                    );
                }
            }
            assert forall|b: nat| #[trigger] fine(after, b) == fine(more, b + 1) by {
                assert(fine(before, b) == fine(done, b + 1));
                assert(fine(middle, b) == (fine(before, b) && blinkable(kids[0], b)));
                if kids.len() == 2 {
                    assert(fine(after, b) == (fine(middle, b) && blinkable(kids[1], b)));
                }
                assert(fine(more, b + 1) == (fine(done, b + 1) && blinkable(entry.engraving@, b + 1)));
                assert(blinkable(entry.engraving@, b + 1) == (blinkable(kids[0], b) && (kids.len() == 2
                    ==> blinkable(kids[1], b)))) by {
                    if blinkable(kids[0], b) && (kids.len() == 2 ==> blinkable(kids[1], b)) {
                        assert forall|k: int| 0 <= k < kids.len() implies blinkable(
                            #[trigger] kids[k],
                            b,
                        ) by {}
                    }
                }
            }
            assert(fine(more, 1) == (fine(done, 1) && blinkable(entry.engraving@, 1)));
            assert(blinkable(entry.engraving@, 1)) by {
                assert forall|k: int| 0 <= k < kids.len() implies blinkable(#[trigger] kids[k], 0) by {}
            }
        }
        i += 1;
    }
    assert(stones@.take(i as int) == stones@);
    Some(result)
}

/// How many stones the entries stand for, where the number fits.
fn count_stones(stones: &Vec<StoneCount>) -> (result: Option<usize>)
    ensures
        result is Some <==> weighted(stones@, 0) <= usize::MAX,
        result matches Some(count) ==> count == weighted(stones@, 0),
{
    let mut sum: usize = 0;
    let mut i: usize = 0;
    assert(stones@.take(0) =~= Seq::<StoneCount>::empty());
    while i < stones.len()
        invariant
            i <= stones.len(),
            sum == weighted(stones@.take(i as int), 0),
        decreases stones.len() - i,
    {
        proof {
            assert(stones@.take(i + 1).drop_last() == stones@.take(i as int));
            assert(stones@.take(i + 1).last() == stones[i as int]);
            lemma_count_after(stones[i as int].engraving@, 0);
            assert(worth(0)(stones[i as int]) == stones[i as int].count * 1);
            lemma_sum_of_first(stones@, i + 1, worth(0));
        }
        sum = match sum.checked_add(stones[i].count) {
            None => {
                return None;
            },
            Some(more) => more,
        };
        i += 1;
    }
    assert(stones@.take(i as int) == stones@);
    Some(sum)
}

/// How many stones the entries stand for after so many blinks, all stones
/// with the same engraving taken through each blink at once; nothing where
/// a stone cannot change or the stones cannot be counted.
pub fn smarter_blinking(stones: Vec<StoneCount>, number_of_blinks: u8) -> (result: Option<usize>)
    requires
        distinct(stones@),
    ensures
        result is Some <==> fine(stones@, number_of_blinks as nat) && weighted(
            stones@,
            number_of_blinks as nat,
        ) <= usize::MAX,
        result matches Some(count) ==> count == weighted(stones@, number_of_blinks as nat),
{
    let ghost first = stones@;
    let mut current = stones;
    let mut done: u8 = 0;
    while done < number_of_blinks
        invariant
            done <= number_of_blinks,
            first == stones@,
            distinct(current@),
            fine(first, done as nat),
            forall|b: nat| #[trigger] weighted(current@, b) == weighted(first, b + done as nat),
            forall|b: nat| #[trigger] fine(current@, b) == fine(first, b + done as nat),
        decreases number_of_blinks - done,
    {
        let ghost before = current@;
        proof {
            assert(weighted(before, 1) == weighted(first, (1 + done) as nat));
            assert(fine(before, 1) == fine(first, (1 + done) as nat));
            if fine(first, number_of_blinks as nat) {
                lemma_fine_fewer(first, number_of_blinks as nat, (1 + done) as nat);
                lemma_weighted_grows(first, (1 + done) as nat, number_of_blinks as nat);
            }
        }
        current = match blink_hashmap_of_stones(&current) {
            None => {
                return None;
            },
            Some(next) => next,
        };
        proof {
            assert forall|b: nat| #[trigger] weighted(current@, b) == weighted(first, b + (done + 1) as nat) by {
                assert(weighted(current@, b) == weighted(before, b + 1));
                assert(weighted(before, b + 1) == weighted(first, b + 1 + done as nat));
            }
            assert forall|b: nat| #[trigger] fine(current@, b) == fine(first, b + (done + 1) as nat) by {
                assert(fine(current@, b) == fine(before, b + 1));
                assert(fine(before, b + 1) == fine(first, b + 1 + done as nat));
            }
        }
        done += 1;
    }
    assert(weighted(current@, 0) == weighted(first, (0 + done) as nat));
    count_stones(&current)
}

/// Whether every character takes one byte.
pub open spec fn is_plain(text: Seq<char>) -> bool {
    forall|i: int| 0 <= i < text.len() ==> (#[trigger] text[i] as u32) < 128
}

/// Whether every character of the text takes one byte.
fn is_plain_text(text: &Vec<char>) -> (plain: bool)
    ensures
        plain == is_plain(text@),
{
    let mut i: usize = 0;
    while i < text.len()
        invariant
            i <= text.len(),
            forall|j: int| 0 <= j < i ==> (#[trigger] text[j] as u32) < 128,
        decreases text.len() - i,
    {
        if text[i] as u32 >= 128 {
            return false;
        }
        i += 1;
    }
    true
}

/// The engravings of the text, which stand between its white space;
/// nothing where a character takes more than one byte.
pub fn parse_as_vector(input: &str) -> (result: Option<Vec<Vec<char>>>)
    ensures
        result is Some <==> is_plain(input@),
        result matches Some(stones) ==> views(stones@) == words_of(input@),
{
    let text = chars_of(input);
    if is_plain_text(&text) {
        Some(split_whitespace(&text))
    } else {
        None
    }
}

/// The engravings of the text, each with the number of times that it
/// stands there; nothing where a character takes more than one byte.
pub fn parse_as_hashmap(data: &str) -> (result: Option<Vec<StoneCount>>)
    ensures
        result is Some <==> is_plain(data@),
        result matches Some(stones) ==> {
            &&& distinct(stones@)
            &&& forall|b: nat| #[trigger] weighted(stones@, b) == total_after(words_of(data@), b)
            &&& forall|b: nat| #[trigger] fine(stones@, b) == all_blinkable(words_of(data@), b)
        },
{
    let words = match parse_as_vector(data) {
        None => {
            return None;
        },
        Some(words) => words,
    };
    let ghost all = views(words@);
    let mut stones: Vec<StoneCount> = Vec::new();
    let mut i: usize = 0;
    assert(all.take(0) =~= Seq::<Seq<char>>::empty());
    while i < words.len()
        invariant
            i <= words.len(),
            all == views(words@),
            distinct(stones@),
            forall|b: nat| #[trigger] weighted(stones@, b) == total_after(all.take(i as int), b),
            forall|b: nat| #[trigger] fine(stones@, b) == all_blinkable(all.take(i as int), b),
        decreases words.len() - i,
    {
        let ghost before = stones@;
        let ghost done = all.take(i as int);
        let ghost more = all.take(i + 1);
        let word = copy_range(&words[i], 0, words[i].len());
        assert(word@ == all[i as int]);
        proof {
            assert(more.drop_last() == done);
            assert(more.last() == all[i as int]);
            assert(weighted(before, 0) == total_after(done, 0));
            lemma_total_is_length(done);
        }
        let added = add_count(&mut stones, word, 1);
        assert(added);
        proof {
            assert forall|b: nat| #[trigger] weighted(stones@, b) == total_after(more, b) by {
                assert(weighted(before, b) == total_after(done, b));
                lemma_count_after(all[i as int], b);
                assert(weighted(stones@, b) == weighted(before, b) + 1 * count_after(
                    all[i as int],
                    b,
                ));
            }
            assert forall|b: nat| #[trigger] fine(stones@, b) == all_blinkable(more, b) by {
                assert(fine(before, b) == all_blinkable(done, b));
                assert(fine(stones@, b) == (fine(before, b) && blinkable(all[i as int], b)));
                if all_blinkable(more, b) {
                    assert(blinkable(more[i as int], b));
                    assert forall|j: int| 0 <= j < done.len() implies blinkable(
                        #[trigger] done[j],
                        b,
                    ) by {
                        assert(more[j] == done[j]);
                    }
                }
                if all_blinkable(done, b) && blinkable(all[i as int], b) {
                    assert forall|j: int| 0 <= j < more.len() implies blinkable(
                        #[trigger] more[j],
                        b,
                    ) by {
                        if j < done.len() {
                            assert(more[j] == done[j]);
                        }
                    }
                }
            }
        }
        i += 1;
    }
    assert(all.take(i as int) == all);
    Some(stones)
}

/// Before any blink the stones are as many as there are engravings.
pub proof fn lemma_total_is_length(stones: Seq<Seq<char>>)
    ensures
        total_after(stones, 0) == stones.len(),
    decreases stones.len(),
{
    if stones.len() > 0 {
        lemma_total_is_length(stones.drop_last());
    }
}

/// How many stones the engravings of the text are after 25 blinks and after
/// 75 blinks; nothing where a character takes more than one byte, a stone
/// cannot change or the stones cannot be counted.
pub fn solve(input: &str) -> (result: Option<(usize, usize)>)
    ensures
        result is Some <==> is_plain(input@) && all_blinkable(words_of(input@), 75) && total_after(
            words_of(input@),
            75,
        ) <= usize::MAX,
        result matches Some(counts) ==> counts.0 == total_after(words_of(input@), 25) && counts.1
            == total_after(words_of(input@), 75),
{
    let stones = match parse_as_vector(input) {
        None => {
            return None;
        },
        Some(stones) => stones,
    };
    let counted = match parse_as_hashmap(input) {
        None => {
            return None;
        },
        Some(counted) => counted,
    };
    proof {
        assert(weighted(counted@, 25) == total_after(words_of(input@), 25));
        assert(weighted(counted@, 75) == total_after(words_of(input@), 75));
        assert(fine(counted@, 25) == all_blinkable(words_of(input@), 25));
        assert(fine(counted@, 75) == all_blinkable(words_of(input@), 75));
        if fine(counted@, 75) {
            lemma_fine_fewer(counted@, 75, 25);
            lemma_weighted_grows(counted@, 25, 75);
        }
    }
    let part2 = match smarter_blinking(counted, 75) {
        None => {
            return None;
        },
        Some(count) => count,
    };
    let part1 = match brute_force_blinking(&stones, 25) {
        None => {
            return None;
        },
        Some(count) => count,
    };
    Some((part1, part2))
}

} // verus!
