//! Reports of levels: a report is safe where its levels all rise or all
//! fall, each by at least one and at most three; the dampener lets one level
//! of a report be left out.

use crate::text::{
    is_signed_number, lines, lines_of, parse_signed, signed_value, split_whitespace, views, words_of,
};
use vstd::prelude::*;

verus! {

/// Whether the step from `prev` to `next` is safe in a report that rises,
/// if `ascending` is set, or falls, if it is not.
pub open spec fn safe_step(prev: int, next: int, ascending: bool) -> bool {
    let diff = next - prev;
    -4 < diff && diff != 0 && diff < 4 && ((ascending && diff > 0) || (!ascending && diff < 0))
}

/// Whether a report of at least two levels is safe. Its first step tells
/// whether it is to rise or to fall.
pub open spec fn safe(report: Seq<i16>) -> bool {
    forall|i: int|
        1 <= i < report.len() ==> safe_step(
            report[i - 1] as int,
            #[trigger] report[i] as int,
            report[1] - report[0] > 0,
        )
}

/// Whether the report is safe once one of its first `n` levels is left out.
pub open spec fn safe_without_one(report: Seq<i16>, n: nat) -> bool
    decreases n,
{
    n > 0 && (safe_without_one(report, (n - 1) as nat) || safe(report.remove(n - 1)))
}

/// Whether the report is safe.
pub fn is_safe(report: &Vec<i16>) -> (result: bool)
    requires
        report.len() >= 2,
    ensures
        result == safe(report@),
{
    let prev = report[0] as i32;
    let next = report[1] as i32;
    let ascending = next - prev > 0;
    let mut i: usize = 1;
    while i < report.len()
        invariant
            1 <= i <= report.len(),
            ascending == (report[1] - report[0] > 0),
            forall|j: int|
                1 <= j < i ==> safe_step(report[j - 1] as int, #[trigger] report[j] as int, ascending),
        decreases report.len() - i,
    {
        let prev = report[i - 1] as i32;
        let next = report[i] as i32;
        let diff = next - prev;
        if !(-4 < diff && diff != 0 && diff < 4 && ((ascending && diff > 0) || (!ascending && diff
            < 0))) {
            assert(!safe_step(report[i - 1] as int, report[i as int] as int, ascending));
            return false;
        }
        i += 1;
    }
    true
}

/// The report without the level at place `skip`.
fn without(report: &Vec<i16>, skip: usize) -> (rest: Vec<i16>)
    requires
        skip < report.len(),
    ensures
        rest@ == report@.remove(skip as int),
{
    let mut rest: Vec<i16> = Vec::new();
    let mut i: usize = 0;
    while i < report.len()
        invariant
            i <= report.len(),
            skip < report.len(),
            i <= skip ==> rest@ == report@.take(i as int),
            i > skip ==> rest@ == report@.remove(skip as int).take(i - 1),
        decreases report.len() - i,
    {
        if i != skip {
            rest.push(report[i]);
        }
        proof {
            if i < skip {
                assert(report@.take(i + 1) == report@.take(i as int).push(report@[i as int]));
            } else if i == skip {
                assert(report@.remove(skip as int).take(i as int) == report@.take(i as int));
            } else {
                assert(report@.remove(skip as int).take(i as int) == report@.remove(skip as int).take(
                    i - 1,
                ).push(report@[i as int]));
            }
        }
        i += 1;
    }
    assert(report@.remove(skip as int).take(report.len() - 1) == report@.remove(skip as int));
    rest
}

/// Whether the report, of at least three levels, is safe once one level is
/// left out.
pub fn is_safe_dampened(report: &Vec<i16>) -> (result: bool)
    requires
        report.len() >= 3,
    ensures
        result == safe_without_one(report@, report.len() as nat),
{
    let mut i: usize = 0;
    while i < report.len()
        invariant
            i <= report.len(),
            report.len() >= 3,
            !safe_without_one(report@, i as nat),
        decreases report.len() - i,
    {
        let rest = without(report, i);
        if is_safe(&rest) {
            proof {
                lemma_safe_without_one_stays(report@, i + 1, report.len() as int);
            }
            return true;
        }
        i += 1;
    }
    false
}

proof fn lemma_safe_without_one_stays(report: Seq<i16>, n: int, more: int)
    requires
        0 <= n <= more,
        safe_without_one(report, n as nat),
    ensures
        safe_without_one(report, more as nat),
    decreases more - n,
{
    if n < more {
        lemma_safe_without_one_stays(report, n, more - 1);
    }
}

/// Whether the words of a line write a report: each a level between
/// -32768 and 32767.
pub open spec fn is_report(words: Seq<Seq<char>>) -> bool {
    forall|i: int|
        0 <= i < words.len() ==> is_signed_number(#[trigger] words[i]) && i16::MIN <= signed_value(
            words[i],
        ) <= i16::MAX
}

/// The report that the words of a line write.
pub open spec fn report_of(words: Seq<Seq<char>>) -> Seq<i16> {
    Seq::new(words.len(), |i: int| signed_value(words[i]) as i16)
}

/// Whether a line can be judged: it writes a report of at least two levels,
/// and of at least three where the report is not safe as it stands.
pub open spec fn can_be_judged(line: Seq<char>) -> bool {
    let words = words_of(line);
    &&& is_report(words)
    &&& words.len() >= 2
    &&& (words.len() >= 3 || safe(report_of(words)))
}

/// The number of the lines that write a safe report.
pub open spec fn safe_reports(all: Seq<Seq<char>>) -> nat
    decreases all.len(),
{
    if all.len() == 0 {
        0
    } else {
        safe_reports(all.drop_last()) + if safe(report_of(words_of(all.last()))) {
            1nat
        } else {
            0nat
        }
    }
}

/// The number of the lines that write a report which is safe, as it stands
/// or once one level is left out.
pub open spec fn tolerable_reports(all: Seq<Seq<char>>) -> nat
    decreases all.len(),
{
    if all.len() == 0 {
        0
    } else {
        let report = report_of(words_of(all.last()));
        tolerable_reports(all.drop_last()) + if safe(report) || safe_without_one(
            report,
            report.len(),
        ) {
            1nat
        } else {
            0nat
        }
    }
}

/// The report that a line writes, if it writes one.
fn parse_report(line: &Vec<char>) -> (report: Option<Vec<i16>>)
    ensures
        report is Some <==> is_report(words_of(line@)),
        report matches Some(levels) ==> levels@ == report_of(words_of(line@)),
{
    let words = split_whitespace(line);
    let ghost all = views(words@);
    let mut levels: Vec<i16> = Vec::new();
    let mut i: usize = 0;
    while i < words.len()
        invariant
            i <= words.len(),
            all == views(words@),
            all == words_of(line@),
            levels.len() == i,
            forall|j: int|
                0 <= j < i ==> is_signed_number(#[trigger] all[j]) && i16::MIN <= signed_value(all[j])
                    <= i16::MAX,
            forall|j: int| 0 <= j < i ==> #[trigger] levels[j] == signed_value(all[j]),
        decreases words.len() - i,
    {
        assert(all[i as int] == words[i as int]@);
        match parse_signed(&words[i], 32768) {
            None => {
                return None;
            },
            Some(level) => {
                if level > 32767 {
                    return None;
                }
                levels.push(level as i16);
            },
        }
        i += 1;
    }
    assert(levels@ == report_of(all));
    Some(levels)
}

/// The number of safe reports, and the number of reports that are safe as
/// they stand or with the dampener; nothing where a line cannot be judged.
pub fn solve(input: &str) -> (counts: Option<(usize, usize)>)
    ensures
        counts is Some <==> forall|i: int|
            0 <= i < lines_of(input@).len() ==> can_be_judged(#[trigger] lines_of(input@)[i]),
        counts matches Some(found) ==> found.0 == safe_reports(lines_of(input@)) && found.1
            == tolerable_reports(lines_of(input@)),
{
    let rows = lines(input);
    let ghost all = views(rows@);
    let mut safe_count: usize = 0;
    let mut tolerable_count: usize = 0;
    let mut i: usize = 0;
    assert(all.take(0) == Seq::<Seq<char>>::empty());
    while i < rows.len()
        invariant
            i <= rows.len(),
            all == views(rows@),
            all == lines_of(input@),
            forall|j: int| 0 <= j < i ==> can_be_judged(#[trigger] all[j]),
            safe_count <= tolerable_count <= i,
            safe_count == safe_reports(all.take(i as int)),
            tolerable_count == tolerable_reports(all.take(i as int)),
        decreases rows.len() - i,
    {
        proof {
            assert(all[i as int] == rows[i as int]@);
            assert(all.take(i + 1).drop_last() == all.take(i as int));
            assert(all.take(i + 1).last() == rows[i as int]@);
        }
        let report = match parse_report(&rows[i]) {
            None => {
                assert(!can_be_judged(all[i as int]));
                return None;
            },
            Some(report) => report,
        };
        if report.len() < 2 {
            assert(!can_be_judged(all[i as int]));
            return None;
        }
        if is_safe(&report) {
            safe_count += 1;
            tolerable_count += 1;
        } else {
            if report.len() < 3 {
                assert(!can_be_judged(all[i as int]));
                return None;
            }
            if is_safe_dampened(&report) {
                tolerable_count += 1;
            }
        }
        assert(can_be_judged(all[i as int]));
        i += 1;
    }
    assert(all.take(i as int) == all);
    Some((safe_count, tolerable_count))
}

} // verus!
