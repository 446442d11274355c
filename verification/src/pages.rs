//! Updates of pages that have to be printed in an order that rules lay
//! down: a rule names two pages, of which the first has to come before the
//! second where both are printed.

pub mod order;

use crate::text::{copy_range, is_signed_number, lines, lines_of, parse_signed, signed_value, views};
use vstd::prelude::*;
use vstd::seq_lib::{to_multiset_build, to_multiset_insert};

verus! {

broadcast use {vstd::seq_lib::group_to_multiset_ensures, vstd::multiset::group_multiset_axioms};

/// A rule: the page `before` comes before the page `after`.
#[derive(Clone, Copy, Debug)]
pub struct Rule {
    pub before: u8,
    pub after: u8,
}

/// Whether there is a rule that puts `before` before `after`.
pub open spec fn has_rule(rules: Seq<Rule>, before: u8, after: u8) -> bool {
    exists|i: int| 0 <= i < rules.len() && (#[trigger] rules[i]).before == before && rules[i].after == after
}

/// Whether the two pages may stand in this order: no rule puts the second
/// before the first.
pub open spec fn ordered(rules: Seq<Rule>, before: u8, after: u8) -> bool {
    !has_rule(rules, after, before)
}

/// Whether `before` has to go before `after` when the pages are sorted: they
/// differ and may stand in this order.
pub open spec fn goes_before(rules: Seq<Rule>, before: u8, after: u8) -> bool {
    before != after && ordered(rules, before, after)
}

/// Whether every page of the update may stand before the page that follows
/// it.
pub open spec fn in_order(rules: Seq<Rule>, update: Seq<u8>) -> bool {
    forall|i: int| 0 <= i < update.len() - 1 ==> ordered(rules, #[trigger] update[i], update[i + 1])
}

/// Whether no two neighbours of the update are known to stand the wrong way
/// round only: of each two, the second does not have to go before the
/// first, or the first has to go before the second.
pub open spec fn settled(rules: Seq<Rule>, update: Seq<u8>) -> bool {
    forall|i: int|
        0 <= i < update.len() - 1 ==> !goes_before(rules, update[i + 1], #[trigger] update[i])
            || goes_before(rules, update[i], update[i + 1])
}

/// Whether there is a rule that puts `before` before `after`.
fn find_rule(rules: &Vec<Rule>, before: u8, after: u8) -> (found: bool)
    ensures
        found == has_rule(rules@, before, after),
{
    let mut i: usize = 0;
    while i < rules.len()
        invariant
            i <= rules.len(),
            forall|j: int| 0 <= j < i ==> !((#[trigger] rules[j]).before == before && rules[j].after == after),
        decreases rules.len() - i,
    {
        if rules[i].before == before && rules[i].after == after {
            return true;
        }
        i += 1;
    }
    false
}

/// Whether the two pages may stand in this order.
pub fn is_sorted(rules: &Vec<Rule>, before: u8, after: u8) -> (sorted: bool)
    ensures
        sorted == ordered(rules@, before, after),
{
    !find_rule(rules, after, before)
}

/// The page in the middle of the update.
pub fn get_middle_page_number(update: &Vec<u8>) -> (page: u8)
    requires
        update.len() > 0,
    ensures
        page == update[update.len() as int / 2],
{
    update[update.len() / 2]
}

/// Whether every page of the update may stand before the page that follows
/// it.
pub fn is_in_order(rules: &Vec<Rule>, update: &Vec<u8>) -> (sorted: bool)
    ensures
        sorted == in_order(rules@, update@),
{
    let mut i: usize = 1;
    while i < update.len()
        invariant
            1 <= i,
            forall|j: int| 0 <= j < i - 1 && j < update.len() - 1 ==> ordered(rules@, #[trigger] update[j], update[j + 1]),
        decreases update.len() - i,
    {
        if !is_sorted(rules, update[i - 1], update[i]) {
            assert(!ordered(rules@, update[i - 1], update[(i - 1) + 1]));
            return false;
        }
        i += 1;
    }
    true
}

/// Where a page is put into pages that are sorted: before the pages at the
/// end that it has to go before, one after the other.
pub open spec fn place(rules: Seq<Rule>, sorted: Seq<u8>, page: u8) -> int
    decreases sorted.len(),
{
    if sorted.len() > 0 && goes_before(rules, page, sorted.last()) {
        place(rules, sorted.drop_last(), page)
    } else {
        sorted.len() as int
    }
}

/// The first `n` pages of the update, sorted: each page in turn is put into
/// those before it.
pub open spec fn sorted_upto(rules: Seq<Rule>, update: Seq<u8>, n: nat) -> Seq<u8>
    decreases n,
{
    if n == 0 {
        Seq::empty()
    } else {
        let sorted = sorted_upto(rules, update, (n - 1) as nat);
        sorted.insert(place(rules, sorted, update[n - 1]), update[n - 1])
    }
}

/// The pages of the update, sorted by the rules.
pub open spec fn sorted_pages(rules: Seq<Rule>, update: Seq<u8>) -> Seq<u8> {
    sorted_upto(rules, update, update.len())
}

/// The pages of the update, sorted by the rules: the same pages, of which no
/// two neighbours stand the wrong way round.
pub fn sort_update(rules: &Vec<Rule>, update: &Vec<u8>) -> (sorted: Vec<u8>)
    ensures
        sorted@ == sorted_pages(rules@, update@),
        sorted@.to_multiset() == update@.to_multiset(),
        sorted.len() == update.len(),
        settled(rules@, sorted@),
{
    let mut sorted: Vec<u8> = Vec::new();
    let mut n: usize = 0;
    assert(update@.take(0) == Seq::<u8>::empty());
    assert(sorted@ == sorted_upto(rules@, update@, 0));
    assert(sorted@.to_multiset() =~= update@.take(0).to_multiset());
    while n < update.len()
        invariant
            n <= update.len(),
            sorted.len() == n,
            sorted@ == sorted_upto(rules@, update@, n as nat),
            sorted@.to_multiset() == update@.take(n as int).to_multiset(),
            settled(rules@, sorted@),
        decreases update.len() - n,
    {
        let page = update[n];
        let ghost done = sorted@;
        let mut at: usize = sorted.len();
        assert(sorted@.take(at as int) == sorted@);
        while at > 0 && page != sorted[at - 1] && is_sorted(rules, page, sorted[at - 1])
            invariant
                at <= sorted.len(),
                forall|j: int| at <= j < sorted.len() ==> goes_before(rules@, page, sorted[j]),
                place(rules@, sorted@, page) == place(rules@, sorted@.take(at as int), page),
            decreases at,
        {
            assert(sorted@.take(at as int).drop_last() == sorted@.take(at - 1));
            at -= 1;
        }
        assert(place(rules@, sorted@, page) == at);
        sorted.insert(at, page);
        proof {
            to_multiset_insert(done, at as int, page);
            assert(update@.take(n + 1) == update@.take(n as int).push(page));
            to_multiset_build(update@.take(n as int), page);
            let after = sorted@;
            assert(after == done.insert(at as int, page));
            assert forall|i: int| 0 <= i < after.len() - 1 implies !goes_before(
                rules@,
                after[i + 1],
                #[trigger] after[i],
            ) || goes_before(rules@, after[i], after[i + 1]) by {
                if i + 1 < at {
                    assert(after[i] == done[i] && after[i + 1] == done[i + 1]);
                } else if i + 1 == at {
                    assert(after[i] == done[at - 1]);
                } else if i == at {
                    assert(after[i + 1] == done[at as int]);
                } else {
                    assert(after[i] == done[i - 1] && after[i + 1] == done[i]);
                }
            }
        }
        n += 1;
    }
    assert(update@.take(n as int) == update@);
    sorted
}

/// Whether `s` writes a page: digits, with or without a plus sign before
/// them, whose value is 255 at most.
pub open spec fn is_page(s: Seq<char>) -> bool {
    is_signed_number(s) && s[0] != '-' && signed_value(s) <= 255
}

/// The page that `s` writes.
pub open spec fn page_of(s: Seq<char>) -> u8 {
    signed_value(s) as u8
}

/// The page that the characters write.
fn read_page(s: &Vec<char>) -> (page: Option<u8>)
    ensures
        page is Some <==> is_page(s@),
        page matches Some(p) ==> p == page_of(s@),
{
    if s.len() == 0 || s[0] == '-' {
        return None;
    }
    match parse_signed(s, 255) {
        None => None,
        Some(value) => {
            assert(value >= 0) by {
                assert(signed_value(s@) >= 0);
            }
            Some(value as u8)
        },
    }
}

/// Whether a character takes one byte.
pub open spec fn is_plain(c: char) -> bool {
    (c as u32) < 128
}

/// Whether a line writes a rule: a page of two characters, a character of
/// one byte, and a page.
pub open spec fn is_rule(line: Seq<char>) -> bool {
    line.len() >= 3 && is_page(line.take(2)) && is_plain(line[2]) && is_page(line.skip(3))
}

/// The rule that a line writes.
pub open spec fn rule_of(line: Seq<char>) -> Rule {
    Rule { before: page_of(line.take(2)), after: page_of(line.skip(3)) }
}

/// Whether a line writes an update: pages of two characters with a
/// character of one byte between each two.
pub open spec fn is_update(line: Seq<char>) -> bool
    decreases line.len(),
{
    if line.len() > 2 {
        is_page(line.take(2)) && is_plain(line[2]) && is_update(line.skip(3))
    } else {
        line.len() == 2 && is_page(line)
    }
}

/// The pages of an update.
pub open spec fn update_of(line: Seq<char>) -> Seq<u8>
    decreases line.len(),
{
    if line.len() > 2 {
        seq![page_of(line.take(2))] + update_of(line.skip(3))
    } else {
        seq![page_of(line)]
    }
}

/// The rule that a line writes.
fn parse_rule(line: &Vec<char>) -> (rule: Option<Rule>)
    ensures
        rule is Some <==> is_rule(line@),
        rule matches Some(r) ==> r == rule_of(line@),
{
    if line.len() < 3 || line[2] as u32 >= 128 {
        return None;
    }
    let head = copy_range(line, 0, 2);
    let tail = copy_range(line, 3, line.len());
    assert(head@ == line@.take(2));
    assert(tail@ == line@.skip(3));
    match (read_page(&head), read_page(&tail)) {
        (Some(before), Some(after)) => Some(Rule { before, after }),
        _ => None,
    }
}

/// The update that a line writes.
fn parse_update(line: &Vec<char>) -> (update: Option<Vec<u8>>)
    ensures
        update is Some <==> is_update(line@),
        update matches Some(pages) ==> pages@ == update_of(line@) && pages.len() > 0,
{
    let mut update: Vec<u8> = Vec::new();
    let mut from: usize = 0;
    assert(line@.skip(0) == line@);
    while line.len() - from > 2
        invariant
            from <= line.len(),
            is_update(line@) == is_update(line@.skip(from as int)),
            is_update(line@) ==> update_of(line@) == update@ + update_of(line@.skip(from as int)),
        decreases line.len() - from,
    {
        let ghost rest = line@.skip(from as int);
        let head = copy_range(line, from, from + 2);
        assert(head@ == rest.take(2));
        assert(rest.skip(3) == line@.skip(from + 3));
        assert(rest[2] == line[from + 2]);
        if line[from + 2] as u32 >= 128 {
            return None;
        }
        match read_page(&head) {
            None => {
                return None;
            },
            Some(page) => {
                let ghost before = update@;
                update.push(page);
                assert(is_update(line@) ==> update_of(line@) == update@ + update_of(
                    line@.skip(from + 3),
                )) by {
                    if is_update(line@) {
                        assert(update@ + update_of(rest.skip(3)) =~= before + (seq![page] + update_of(
                            rest.skip(3),
                        )));
                    }
                }
            },
        }
        from += 3;
    }
    let tail = copy_range(line, from, line.len());
    assert(tail@ == line@.skip(from as int));
    if tail.len() != 2 {
        return None;
    }
    match read_page(&tail) {
        None => None,
        Some(page) => {
            let ghost before = update@;
            update.push(page);
            assert(update@ =~= before + seq![page]);
            Some(update)
        },
    }
}

/// How many lines stand before the first empty line.
pub open spec fn rule_lines(all: Seq<Seq<char>>) -> nat
    decreases all.len(),
{
    if all.len() == 0 || all[0].len() == 0 {
        0
    } else {
        1 + rule_lines(all.drop_first())
    }
}

/// The rules of the first `n` lines, each once.
pub open spec fn rules_upto(all: Seq<Seq<char>>, n: nat) -> Seq<Rule>
    decreases n,
{
    if n == 0 {
        Seq::empty()
    } else {
        let known = rules_upto(all, (n - 1) as nat);
        let rule = rule_of(all[n - 1]);
        if has_rule(known, rule.before, rule.after) {
            known
        } else {
            known.push(rule)
        }
    }
}

/// The rules of the lines: those of the lines before the first empty line.
pub open spec fn rules_of(all: Seq<Seq<char>>) -> Seq<Rule> {
    rules_upto(all, rule_lines(all))
}

/// The line on which the updates begin: after as many lines as there are
/// rules, and one more.
pub open spec fn first_update(all: Seq<Seq<char>>) -> int {
    rules_of(all).len() as int + 1
}

/// Whether the lines can be read: those before the first empty line write
/// rules, and those from the first line of the updates on write updates.
pub open spec fn readable(all: Seq<Seq<char>>) -> bool {
    &&& forall|n: int| 0 <= n < rule_lines(all) ==> is_rule(#[trigger] all[n])
    &&& forall|n: int| first_update(all) <= n < all.len() ==> is_update(#[trigger] all[n])
}

/// The updates of the lines.
pub open spec fn updates_of(all: Seq<Seq<char>>) -> Seq<Seq<u8>> {
    Seq::new(
        if all.len() > first_update(all) {
            (all.len() - first_update(all)) as nat
        } else {
            0
        },
        |u: int| update_of(all[first_update(all) + u]),
    )
}

/// The pages of each update.
pub open spec fn pages_of(updates: Seq<Vec<u8>>) -> Seq<Seq<u8>> {
    Seq::new(updates.len(), |u: int| updates[u]@)
}

proof fn lemma_rule_lines(all: Seq<Seq<char>>, n: int)
    requires
        0 <= n <= all.len(),
        forall|j: int| 0 <= j < n ==> (#[trigger] all[j]).len() > 0,
        n == all.len() || all[n].len() == 0,
    ensures
        rule_lines(all) == n,
    decreases n,
{
    if n > 0 {
        let rest = all.drop_first();
        assert forall|j: int| 0 <= j < n - 1 implies (#[trigger] rest[j]).len() > 0 by {
            assert(rest[j] == all[j + 1]);
        }
        if n < all.len() {
            assert(rest[n - 1] == all[n]);
        }
        lemma_rule_lines(rest, n - 1);
    }
}

/// The rules of the text, each once, and its updates; nothing where a line
/// cannot be read.
pub fn parse(input: &str) -> (result: Option<(Vec<Rule>, Vec<Vec<u8>>)>)
    ensures
        result is Some <==> readable(lines_of(input@)),
        result matches Some(found) ==> {
            &&& found.0@ == rules_of(lines_of(input@))
            &&& pages_of(found.1@) == updates_of(lines_of(input@))
            &&& forall|u: int| 0 <= u < found.1.len() ==> (#[trigger] found.1[u]).len() > 0
        },
{
    let rows = lines(input);
    let ghost all = views(rows@);
    let mut rules: Vec<Rule> = Vec::new();
    let mut i: usize = 0;
    while i < rows.len() && rows[i].len() > 0
        invariant
            i <= rows.len(),
            all == views(rows@),
            all == lines_of(input@),
            rules.len() <= i,
            rules@ == rules_upto(all, i as nat),
            forall|n: int| 0 <= n < i ==> is_rule(#[trigger] all[n]),
            forall|n: int| 0 <= n < i ==> (#[trigger] all[n]).len() > 0,
        decreases rows.len() - i,
    {
        assert(all[i as int] == rows[i as int]@);
        match parse_rule(&rows[i]) {
            None => {
                proof {
                    if i + 1 < rows.len() {
                        assert(all[i as int].len() > 0);
                    }
                    lemma_some_rule_line(all, i as int);
                }
                return None;
            },
            Some(rule) => {
                if !find_rule(&rules, rule.before, rule.after) {
                    rules.push(rule);
                }
            },
        }
        i += 1;
    }
    proof {
        if i < rows.len() {
            assert(all[i as int] == rows[i as int]@);
        }
        lemma_rule_lines(all, i as int);
    }
    let mut updates: Vec<Vec<u8>> = Vec::new();
    if rules.len() >= rows.len() || rules.len() + 1 >= rows.len() {
        assert(pages_of(updates@) =~= updates_of(all));
        return Some((rules, updates));
    }
    let first = rules.len() + 1;
    let mut u: usize = first;
    while u < rows.len()
        invariant
            first <= u <= rows.len(),
            first == first_update(all),
            all == views(rows@),
            all == lines_of(input@),
            updates.len() == u - first,
            forall|n: int| 0 <= n < updates.len() ==> (#[trigger] updates[n]).len() > 0,
            forall|n: int| first <= n < u ==> is_update(#[trigger] all[n]),
            forall|n: int|
                0 <= n < updates.len() ==> (#[trigger] updates[n])@ == update_of(all[first + n]),
        decreases rows.len() - u,
    {
        assert(all[u as int] == rows[u as int]@);
        match parse_update(&rows[u]) {
            None => {
                return None;
            },
            Some(update) => {
                let ghost before = updates@;
                updates.push(update);
                assert forall|n: int| 0 <= n < updates.len() implies (#[trigger] updates[n])@
                    == update_of(all[first + n]) && updates[n].len() > 0 by {
                    if n < before.len() {
                        assert(updates[n] == before[n]);
                    }
                }
            },
        }
        u += 1;
    }
    assert(pages_of(updates@) =~= updates_of(all));
    Some((rules, updates))
}

/// A line that is not empty and follows lines that are not empty stands
/// before the first empty line.
proof fn lemma_some_rule_line(all: Seq<Seq<char>>, n: int)
    requires
        0 <= n < all.len(),
        forall|j: int| 0 <= j <= n ==> (#[trigger] all[j]).len() > 0,
    ensures
        n < rule_lines(all),
    decreases n,
{
    if n > 0 {
        let rest = all.drop_first();
        assert forall|j: int| 0 <= j <= n - 1 implies (#[trigger] rest[j]).len() > 0 by {
            assert(rest[j] == all[j + 1]);
        }
        lemma_some_rule_line(rest, n - 1);
    }
}

/// The middle page of an update.
pub open spec fn middle(update: Seq<u8>) -> nat {
    update[update.len() as int / 2] as nat
}

/// The sum of the middle pages of those of the first `n` updates that are
/// in order.
pub open spec fn in_order_sum(rules: Seq<Rule>, updates: Seq<Seq<u8>>, n: nat) -> nat
    decreases n,
{
    if n == 0 {
        0
    } else {
        in_order_sum(rules, updates, (n - 1) as nat) + if in_order(rules, updates[n - 1]) {
            middle(updates[n - 1])
        } else {
            0
        }
    }
}

/// The sum of the middle pages, once they are sorted, of those of the first
/// `n` updates that are not in order.
pub open spec fn corrected_sum(rules: Seq<Rule>, updates: Seq<Seq<u8>>, n: nat) -> nat
    decreases n,
{
    if n == 0 {
        0
    } else {
        corrected_sum(rules, updates, (n - 1) as nat) + if in_order(rules, updates[n - 1]) {
            0
        } else {
            middle(sorted_pages(rules, updates[n - 1]))
        }
    }
}

proof fn lemma_sums_grow(rules: Seq<Rule>, updates: Seq<Seq<u8>>, n: nat, m: nat)
    requires
        n <= m,
    ensures
        in_order_sum(rules, updates, n) <= in_order_sum(rules, updates, m),
        corrected_sum(rules, updates, n) <= corrected_sum(rules, updates, m),
    decreases m,
{
    if n < m {
        lemma_sums_grow(rules, updates, n, (m - 1) as nat);
    }
}

/// The sum of the middle pages of the updates that are in order, and the
/// sum of the middle pages, once they are sorted, of those that are not;
/// nothing where a line cannot be read or a sum does not fit in 16 bits.
pub fn solve(input: &str) -> (result: Option<(u16, u16)>)
    ensures
        result is Some <==> readable(lines_of(input@)) && in_order_sum(
            rules_of(lines_of(input@)),
            updates_of(lines_of(input@)),
            updates_of(lines_of(input@)).len(),
        ) <= u16::MAX && corrected_sum(
            rules_of(lines_of(input@)),
            updates_of(lines_of(input@)),
            updates_of(lines_of(input@)).len(),
        ) <= u16::MAX,
        result matches Some(sums) ==> sums.0 == in_order_sum(
            rules_of(lines_of(input@)),
            updates_of(lines_of(input@)),
            updates_of(lines_of(input@)).len(),
        ) && sums.1 == corrected_sum(
            rules_of(lines_of(input@)),
            updates_of(lines_of(input@)),
            updates_of(lines_of(input@)).len(),
        ),
{
    let (rules, updates) = match parse(input) {
        None => {
            return None;
        },
        Some(found) => found,
    };
    let ghost all = pages_of(updates@);
    let mut part1: u16 = 0;
    let mut part2: u16 = 0;
    let mut i: usize = 0;
    while i < updates.len()
        invariant
            i <= updates.len(),
            all == pages_of(updates@),
            all == updates_of(lines_of(input@)),
            rules@ == rules_of(lines_of(input@)),
            readable(lines_of(input@)),
            forall|u: int| 0 <= u < updates.len() ==> (#[trigger] updates[u]).len() > 0,
            part1 == in_order_sum(rules@, all, i as nat),
            part2 == corrected_sum(rules@, all, i as nat),
        decreases updates.len() - i,
    {
        let update = &updates[i];
        assert(all[i as int] == update@);
        proof {
            lemma_sums_grow(rules@, all, (i + 1) as nat, all.len());
        }
        if is_in_order(&rules, update) {
            part1 = match part1.checked_add(get_middle_page_number(update) as u16) {
                None => {
                    return None;
                },
                Some(sum) => sum,
            };
        } else {
            let sorted = sort_update(&rules, update);
            part2 = match part2.checked_add(get_middle_page_number(&sorted) as u16) {
                None => {
                    return None;
                },
                Some(sum) => sum,
            };
        }
        i += 1;
    }
    Some((part1, part2))
}

} // verus!
