//! Designs of stripes that are to be laid out with towels: a design can be
//! made where it is one towel after another, and it has as many
//! arrangements as there are ways to cut it into towels.

use crate::text::{chars_of, copy_range, lines_of, lines_of_chars, same_chars, split_by, split_str, views};
use vstd::prelude::*;

verus! {

/// Whether `design` starts with `towel`.
pub open spec fn starts_with(design: Seq<char>, towel: Seq<char>) -> bool {
    towel.len() <= design.len() && design.take(towel.len() as int) == towel
}

/// Whether `design` ends with `towel`.
pub open spec fn ends_with(design: Seq<char>, towel: Seq<char>) -> bool {
    towel.len() <= design.len() && design.skip(design.len() - towel.len()) == towel
}

/// Whether the design can be made, as the search goes: a towel starts it,
/// and what is left is nothing, or a towel ends it that leaves nothing
/// between the two or something shorter than the design that can be made in
/// its turn. That is to be one towel after another, as `is_laid_out` says
/// and `lemma_made_means_laid_out` shows.
pub open spec fn can_be_made(design: Seq<char>, towels: Seq<Seq<char>>) -> bool
    decreases design.len(),
{
    exists|s: int|
        0 <= s < towels.len() && #[trigger] starts_with(design, towels[s]) && {
            let rest = design.skip(towels[s].len() as int);
            rest.len() == 0 || exists|e: int|
                0 <= e < towels.len() && #[trigger] ends_with(rest, towels[e]) && {
                    let middle = rest.take(rest.len() - towels[e].len());
                    middle.len() == 0 || (middle.len() < design.len() && can_be_made(middle, towels))
                }
        }
}

/// Whether the design can be made of the towels.
pub fn can_create_design_using(initial_design: &Vec<char>, available_towels: &Vec<Vec<char>>) -> (can:
    bool)
    ensures
        can == can_be_made(initial_design@, views(available_towels@)),
    decreases initial_design.len(),
{
    let ghost towels = views(available_towels@);
    let ghost design = initial_design@;
    let mut s: usize = 0;
    while s < available_towels.len()
        invariant
            s <= available_towels.len(),
            towels == views(available_towels@),
            design == initial_design@,
            forall|n: int|
                0 <= n < s ==> !(#[trigger] starts_with(design, towels[n]) && {
                    let rest = design.skip(towels[n].len() as int);
                    rest.len() == 0 || exists|e: int|
                        0 <= e < towels.len() && #[trigger] ends_with(rest, towels[e]) && {
                            let middle = rest.take(rest.len() - towels[e].len());
                            middle.len() == 0 || (middle.len() < design.len() && can_be_made(
                                middle,
                                towels,
                            ))
                        }
                }),
        decreases available_towels.len() - s,
    {
        let start_towel = &available_towels[s];
        assert(towels[s as int] == start_towel@);
        if start_towel.len() <= initial_design.len() {
            let design_start = copy_range(initial_design, 0, start_towel.len());
            if same_chars(start_towel, &design_start) {
                let remaining_design = copy_range(initial_design, start_towel.len(), initial_design.len());
                let ghost rest = design.skip(start_towel.len() as int);
                assert(remaining_design@ == rest);
                if remaining_design.len() == 0 {
                    assert(starts_with(design, towels[s as int]));
                    return true;
                }
                let mut e: usize = 0;
                while e < available_towels.len()
                    invariant
                        e <= available_towels.len(),
                        s < available_towels.len(),
                        towels == views(available_towels@),
                        design == initial_design@,
                        remaining_design@ == rest,
                        rest == design.skip(towels[s as int].len() as int),
                        rest.len() > 0,
                        rest.len() <= design.len(),
                        starts_with(design, towels[s as int]),
                        forall|n: int|
                            0 <= n < e ==> !(#[trigger] ends_with(rest, towels[n]) && {
                                let middle = rest.take(rest.len() - towels[n].len());
                                middle.len() == 0 || (middle.len() < design.len() && can_be_made(
                                    middle,
                                    towels,
                                ))
                            }),
                    decreases available_towels.len() - e,
                {
                    let end_towel = &available_towels[e];
                    assert(towels[e as int] == end_towel@);
                    if end_towel.len() <= remaining_design.len() {
                        let cut = remaining_design.len() - end_towel.len();
                        let design_end = copy_range(&remaining_design, cut, remaining_design.len());
                        if same_chars(end_towel, &design_end) {
                            assert(ends_with(rest, towels[e as int]));
                            let remaining = copy_range(&remaining_design, 0, cut);
                            assert(remaining@ == rest.take(rest.len() - towels[e as int].len()));
                            if remaining.len() == 0 {
                                return true;
                            }
                            if remaining.len() < initial_design.len() {
                                if can_create_design_using(&remaining, available_towels) {
                                    return true;
                                }
                            }
                        }
                    }
                    e += 1;
                }
            }
        }
        s += 1;
    }
    false
}

/// The towels at the places `picks`, one after another.
pub open spec fn laid(towels: Seq<Seq<char>>, picks: Seq<int>) -> Seq<char>
    decreases picks.len(),
{
    if picks.len() == 0 {
        Seq::empty()
    } else {
        laid(towels, picks.drop_last()) + towels[picks.last()]
    }
}

/// Whether every one of `picks` is the place of a towel.
pub open spec fn picks_towels(towels: Seq<Seq<char>>, picks: Seq<int>) -> bool {
    forall|i: int| 0 <= i < picks.len() ==> 0 <= #[trigger] picks[i] < towels.len()
}

/// Whether the design is one towel after another, at least one.
pub open spec fn is_laid_out(design: Seq<char>, towels: Seq<Seq<char>>) -> bool {
    exists|picks: Seq<int>|
        picks.len() > 0 && picks_towels(towels, picks) && #[trigger] laid(towels, picks) == design
}

/// One towel laid is the towel.
proof fn lemma_laid_one(towels: Seq<Seq<char>>, place: int)
    ensures
        laid(towels, seq![place]) == towels[place],
{
    let one = seq![place];
    assert(one.drop_last() == Seq::<int>::empty());
    assert(laid(towels, one.drop_last()) == Seq::<char>::empty());
    assert(Seq::<char>::empty() + towels[place] == towels[place]);
}

/// Towels laid after towels are the towels of both lists of places.
pub proof fn lemma_laid_both(towels: Seq<Seq<char>>, first: Seq<int>, second: Seq<int>)
    ensures
        laid(towels, first + second) == laid(towels, first) + laid(towels, second),
    decreases second.len(),
{
    if second.len() == 0 {
        assert(first + second == first);
        assert(laid(towels, first) + Seq::<char>::empty() == laid(towels, first));
    } else {
        lemma_laid_both(towels, first, second.drop_last());
        assert((first + second).drop_last() == first + second.drop_last());
        assert((first + second).last() == second.last());
        assert((laid(towels, first) + laid(towels, second.drop_last())) + towels[second.last()]
            == laid(towels, first) + (laid(towels, second.drop_last()) + towels[second.last()]));
    }
}

/// The places of the towels of which a design that can be made is made.
proof fn lemma_made_is_laid(design: Seq<char>, towels: Seq<Seq<char>>) -> (picks: Seq<int>)
    requires
        can_be_made(design, towels),
    ensures
        picks.len() > 0,
        picks_towels(towels, picks),
        laid(towels, picks) == design,
    decreases design.len(),
{
    let s = choose|s: int|
        0 <= s < towels.len() && #[trigger] starts_with(design, towels[s]) && {
            let rest = design.skip(towels[s].len() as int);
            rest.len() == 0 || exists|e: int|
                0 <= e < towels.len() && #[trigger] ends_with(rest, towels[e]) && {
                    let middle = rest.take(rest.len() - towels[e].len());
                    middle.len() == 0 || (middle.len() < design.len() && can_be_made(middle, towels))
                }
        };
    let rest = design.skip(towels[s].len() as int);
    let start = seq![s];
    lemma_laid_one(towels, s);
    assert(design == towels[s] + rest);
    if rest.len() == 0 {
        assert(towels[s] + rest == towels[s]);
        start
    } else {
        let e = choose|e: int|
            0 <= e < towels.len() && #[trigger] ends_with(rest, towels[e]) && {
                let middle = rest.take(rest.len() - towels[e].len());
                middle.len() == 0 || (middle.len() < design.len() && can_be_made(middle, towels))
            };
        let middle = rest.take(rest.len() - towels[e].len());
        let end = seq![e];
        lemma_laid_one(towels, e);
        assert(rest == middle + towels[e]);
        let between = if middle.len() == 0 {
            Seq::<int>::empty()
        } else {
            lemma_made_is_laid(middle, towels)
        };
        assert(laid(towels, between) == middle);
        let picks = (start + between) + end;
        lemma_laid_both(towels, start, between);
        lemma_laid_both(towels, start + between, end);
        assert((towels[s] + middle) + towels[e] == towels[s] + (middle + towels[e]));
        picks
    }
}

/// A design that is one towel after another can be made.
proof fn lemma_laid_is_made(design: Seq<char>, towels: Seq<Seq<char>>, picks: Seq<int>)
    requires
        picks.len() > 0,
        picks_towels(towels, picks),
        laid(towels, picks) == design,
    ensures
        can_be_made(design, towels),
    decreases picks.len(),
{
    let n = picks.len() as int;
    let s = picks[0];
    let start = seq![s];
    lemma_laid_one(towels, s);
    let others = picks.skip(1);
    assert(picks == start + others);
    lemma_laid_both(towels, start, others);
    let rest = design.skip(towels[s].len() as int);
    assert(design == towels[s] + laid(towels, others));
    assert(rest == laid(towels, others));
    assert(design.take(towels[s].len() as int) == towels[s]);
    assert(starts_with(design, towels[s]));
    if rest.len() > 0 {
        assert(others.len() > 0);
        let e = others.last();
        assert(e == picks[n - 1]);
        let between = others.drop_last();
        let middle = rest.take(rest.len() - towels[e].len());
        assert(rest == laid(towels, between) + towels[e]);
        assert(middle == laid(towels, between));
        assert(rest.skip(rest.len() - towels[e].len()) == towels[e]);
        assert(ends_with(rest, towels[e]));
        if middle.len() > 0 {
            assert(between.len() > 0);
            assert(picks_towels(towels, between)) by {
                assert forall|i: int| 0 <= i < between.len() implies 0 <= #[trigger] between[i]
                    < towels.len() by {
                    assert(between[i] == picks[i + 1]);
                }
            }
            lemma_laid_is_made(middle, towels, between);
            if middle.len() >= design.len() {
                assert(middle == design);
            }
        }
        if middle.len() == 0 || middle.len() < design.len() {
            assert(ends_with(rest, towels[e]) && {
                let middle = rest.take(rest.len() - towels[e].len());
                middle.len() == 0 || (middle.len() < design.len() && can_be_made(middle, towels))
            });
        }
    }
}

/// A design can be made exactly when it is one towel after another.
pub proof fn lemma_made_means_laid_out(design: Seq<char>, towels: Seq<Seq<char>>)
    ensures
        can_be_made(design, towels) <==> is_laid_out(design, towels),
{
    if can_be_made(design, towels) {
        let picks = lemma_made_is_laid(design, towels);
        assert(laid(towels, picks) == design);
    }
    if is_laid_out(design, towels) {
        let picks = choose|picks: Seq<int>|
            picks.len() > 0 && picks_towels(towels, picks) && #[trigger] laid(towels, picks) == design;
        lemma_laid_is_made(design, towels, picks);
    }
}

/// Whether `part` is one of the towels.
pub open spec fn is_towel(part: Seq<char>, towels: Seq<Seq<char>>) -> bool {
    towels.contains(part)
}

/// The number of ways to cut the design from place `start` on into towels
/// that are not empty, counted over the first cuts that end before place
/// `end`.
pub open spec fn ways(design: Seq<char>, towels: Seq<Seq<char>>, start: int, end: int) -> nat
    decreases design.len() - start, end - start,
{
    if start < 0 || start >= design.len() || end <= start + 1 || end > design.len() + 1 {
        0
    } else {
        let first = end - 1;
        ways(design, towels, start, end - 1) + if is_towel(design.subrange(start, first), towels) {
            if first == design.len() {
                1nat
            } else {
                ways(design, towels, first, design.len() as int + 1)
            }
        } else {
            0nat
        }
    }
}

/// The number of arrangements of the design from place `start` on.
pub open spec fn arrangements(design: Seq<char>, towels: Seq<Seq<char>>, start: int) -> nat {
    ways(design, towels, start, design.len() as int + 1)
}

/// The number of arrangements, as a number of the machine holds it: what
/// does not fit is held as the largest number.
pub open spec fn capped(n: nat) -> usize {
    if n >= usize::MAX {
        usize::MAX
    } else {
        n as usize
    }
}

/// Whether `part` is one of the towels.
fn is_one_of(part: &Vec<char>, towels: &Vec<Vec<char>>) -> (found: bool)
    ensures
        found == is_towel(part@, views(towels@)),
{
    let mut i: usize = 0;
    while i < towels.len()
        invariant
            i <= towels.len(),
            forall|j: int| 0 <= j < i ==> views(towels@)[j] != part@,
        decreases towels.len() - i,
    {
        assert(views(towels@)[i as int] == towels[i as int]@);
        if same_chars(&towels[i], part) {
            return true;
        }
        i += 1;
    }
    false
}

/// The sum of two capped numbers.
fn add_capped(a: usize, b: usize) -> (sum: usize)
    ensures
        sum == if a + b >= usize::MAX {
            usize::MAX
        } else {
            (a + b) as usize
        },
{
    if a > usize::MAX - b {
        usize::MAX
    } else {
        a + b
    }
}

/// The number of arrangements of the design from place `start_i` on,
/// capped. The numbers that are found are kept in `cache`, by the place from
/// which they count.
pub fn get_towel_arrangements(
    design: &Vec<char>,
    towel_set: &Vec<Vec<char>>,
    start_i: usize,
    cache: &mut Vec<Option<usize>>,
) -> (result: usize)
    requires
        start_i <= design.len(),
        old(cache).len() == design.len(),
        forall|i: int|
            0 <= i < old(cache).len() ==> match #[trigger] old(cache)[i] {
                Some(known) => known == capped(arrangements(design@, views(towel_set@), i)),
                None => true,
            },
    ensures
        result == capped(arrangements(design@, views(towel_set@), start_i as int)),
        final(cache).len() == design.len(),
        forall|i: int|
            0 <= i < final(cache).len() ==> match #[trigger] final(cache)[i] {
                Some(known) => known == capped(arrangements(design@, views(towel_set@), i)),
                None => true,
            },
    decreases design.len() - start_i,
{
    if start_i == design.len() {
        return 0;
    }
    if let Some(result) = cache[start_i] {
        return result;
    }
    let ghost towels = views(towel_set@);
    let mut result: usize = 0;
    let mut cut: usize = start_i;
    while cut < design.len()
        invariant
            start_i <= cut <= design.len(),
            start_i < design.len(),
            towels == views(towel_set@),
            cache.len() == design.len(),
            forall|i: int|
                0 <= i < cache.len() ==> match #[trigger] cache[i] {
                    Some(known) => known == capped(arrangements(design@, towels, i)),
                    None => true,
                },
            result == capped(ways(design@, towels, start_i as int, cut + 1)),
        decreases design.len() - cut,
    {
        let end_i = cut + 1;
        let part = copy_range(design, start_i, end_i);
        if is_one_of(&part, towel_set) {
            if end_i == design.len() {
                result = add_capped(result, 1);
            } else {
                let more = get_towel_arrangements(design, towel_set, end_i, cache);
                result = add_capped(result, more);
            }
        }
        cut += 1;
    }
    cache.set(start_i, Some(result));
    result
}

/// The sum of the numbers of arrangements of the first `n` designs.
pub open spec fn all_arrangements(designs: Seq<Seq<char>>, towels: Seq<Seq<char>>, n: nat) -> nat
    decreases n,
{
    if n == 0 {
        0
    } else {
        all_arrangements(designs, towels, (n - 1) as nat) + arrangements(designs[n - 1], towels, 0)
    }
}

/// A cache for a design of `n` stripes in which nothing is known yet.
fn empty_cache(n: usize) -> (cache: Vec<Option<usize>>)
    ensures
        cache.len() == n,
        forall|i: int| 0 <= i < cache.len() ==> #[trigger] cache[i] is None,
{
    let mut cache: Vec<Option<usize>> = Vec::new();
    let mut i: usize = 0;
    while i < n
        invariant
            i <= n,
            cache.len() == i,
            forall|j: int| 0 <= j < i ==> #[trigger] cache[j] is None,
        decreases n - i,
    {
        cache.push(None);
        i += 1;
    }
    cache
}

/// The sum of the numbers of arrangements of the designs, capped.
pub fn get_sum_of_towel_arrangements(towels: &Vec<Vec<char>>, designs: &Vec<Vec<char>>) -> (result:
    usize)
    ensures
        result == capped(all_arrangements(views(designs@), views(towels@), designs.len() as nat)),
{
    let mut result: usize = 0;
    let mut i: usize = 0;
    while i < designs.len()
        invariant
            i <= designs.len(),
            result == capped(all_arrangements(views(designs@), views(towels@), i as nat)),
        decreases designs.len() - i,
    {
        let design = &designs[i];
        assert(views(designs@)[i as int] == design@);
        let mut cache = empty_cache(design.len());
        let found = get_towel_arrangements(design, towels, 0, &mut cache);
        result = add_capped(result, found);
        i += 1;
    }
    result
}

/// The designs that can be made, in their order.
pub open spec fn possible(designs: Seq<Seq<char>>, towels: Seq<Seq<char>>, n: nat) -> Seq<Seq<char>>
    decreases n,
{
    if n == 0 {
        Seq::empty()
    } else if can_be_made(designs[n - 1], towels) {
        possible(designs, towels, (n - 1) as nat).push(designs[n - 1])
    } else {
        possible(designs, towels, (n - 1) as nat)
    }
}

/// The designs that can be made of the towels, in their order.
pub fn get_possible_designs(towels: &Vec<Vec<char>>, designs: &Vec<Vec<char>>) -> (found: Vec<Vec<char>>)
    ensures
        views(found@) == possible(views(designs@), views(towels@), designs.len() as nat),
{
    let mut found: Vec<Vec<char>> = Vec::new();
    let mut i: usize = 0;
    while i < designs.len()
        invariant
            i <= designs.len(),
            views(found@) == possible(views(designs@), views(towels@), i as nat),
        decreases designs.len() - i,
    {
        let design = &designs[i];
        assert(views(designs@)[i as int] == design@);
        if can_create_design_using(design, towels) {
            let ghost before = views(found@);
            let copy = copy_range(design, 0, design.len());
            assert(copy@ == design@);
            found.push(copy);
            assert(views(found@) == before.push(design@));
        }
        i += 1;
    }
    found
}

/// The towels that a line lists, with a comma and a blank between each two.
pub fn parse_towels(line: &Vec<char>) -> (towels: Vec<Vec<char>>)
    ensures
        views(towels@) == split_by(line@, seq![',', ' ']),
{
    let mut sep: Vec<char> = Vec::new();
    sep.push(',');
    sep.push(' ');
    assert(sep@ == seq![',', ' ']);
    split_str(line, &sep)
}

/// The towels that the lines list: those of the first line.
pub open spec fn towels_of(all: Seq<Seq<char>>) -> Seq<Seq<char>> {
    if all.len() == 0 {
        Seq::empty()
    } else {
        split_by(all[0], seq![',', ' '])
    }
}

/// The designs that the lines list: the lines from the third on.
pub open spec fn designs_of(all: Seq<Seq<char>>) -> Seq<Seq<char>> {
    if all.len() <= 2 {
        Seq::empty()
    } else {
        all.skip(2)
    }
}

/// The towels, which the first line lists, and the designs, which stand one
/// on a line from the third line on.
pub fn parse(input: &str) -> (result: (Vec<Vec<char>>, Vec<Vec<char>>))
    ensures
        views(result.0@) == towels_of(lines_of(input@)),
        views(result.1@) == designs_of(lines_of(input@)),
{
    let text = chars_of(input);
    let rows = lines_of_chars(&text);
    let ghost all = views(rows@);
    let mut towels: Vec<Vec<char>> = Vec::new();
    let mut designs: Vec<Vec<char>> = Vec::new();
    if rows.len() > 0 {
        assert(all[0] == rows[0]@);
        towels = parse_towels(&rows[0]);
    } else {
        assert(views(towels@) == Seq::<Seq<char>>::empty());
    }
    if rows.len() <= 2 {
        assert(views(designs@) == Seq::<Seq<char>>::empty());
        return (towels, designs);
    }
    let mut i: usize = 2;
    assert(all.subrange(2, 2) == Seq::<Seq<char>>::empty());
    while i < rows.len()
        invariant
            2 <= i <= rows.len(),
            all == views(rows@),
            views(designs@) == all.subrange(2, i as int),
        decreases rows.len() - i,
    {
        let ghost before = views(designs@);
        let copy = copy_range(&rows[i], 0, rows[i].len());
        assert(copy@ == all[i as int]);
        designs.push(copy);
        assert(views(designs@) == before.push(all[i as int]));
        i += 1;
    }
    assert(all.subrange(2, rows.len() as int) == all.skip(2));
    (towels, designs)
}

/// The designs of the text that can be made of its towels.
pub open spec fn made_of(all: Seq<Seq<char>>) -> Seq<Seq<char>> {
    possible(designs_of(all), towels_of(all), designs_of(all).len())
}

/// The number of designs that can be made, and the sum of the numbers of
/// their arrangements, capped.
pub fn solve(input: &str) -> (result: (usize, usize))
    ensures
        result.0 == made_of(lines_of(input@)).len(),
        result.1 == capped(
            all_arrangements(
                made_of(lines_of(input@)),
                towels_of(lines_of(input@)),
                made_of(lines_of(input@)).len(),
            ),
        ),
{
    let (towels, designs) = parse(input);
    let possible_designs = get_possible_designs(&towels, &designs);
    let sum_of_towel_arrangements = get_sum_of_towel_arrangements(&towels, &possible_designs);
    proof {
        assert(views(possible_designs@) == made_of(lines_of(input@)));
        assert(possible_designs.len() == views(possible_designs@).len());
    }
    (possible_designs.len(), sum_of_towel_arrangements)
}

} // verus!
