//! Locks and keys with five pins each: a key fits a lock where in no column
//! the pin of the lock and the cut of the key have more than five units
//! between them.
//!
//! A schematic takes up to eight lines: a top row that tells a key, which
//! starts with `.`, from a lock; five rows in which every `#` adds one unit
//! to its column; a bottom row; and an empty line.

use crate::text::{char_at, lines, lines_of, views};
use vstd::prelude::*;

verus! {

/// The heights of the five columns of a key.
pub type Key = [u8; 5];

/// The heights of the five columns of a lock.
pub type Lock = [u8; 5];

/// The number of `#` in column `i` of the first `n` rows.
pub open spec fn column_height(rows: Seq<Seq<char>>, i: int, n: nat) -> nat
    decreases n,
{
    if n == 0 {
        0
    } else {
        column_height(rows, i, (n - 1) as nat) + if i < rows[n - 1].len() && rows[n - 1][i] == '#' {
            1nat
        } else {
            0nat
        }
    }
}

/// Whether the first five rows have a `#` only in the first five columns.
pub open spec fn narrow(rows: Seq<Seq<char>>) -> bool {
    forall|j: int, i: int|
        0 <= j < 5 && 5 <= i < rows[j].len() ==> #[trigger] rows[j][i] != '#'
}

/// Whether `pattern` holds the heights of the five columns of `rows`.
pub open spec fn is_pattern(rows: Seq<Seq<char>>, pattern: Seq<u8>) -> bool {
    &&& pattern.len() == 5
    &&& forall|i: int| 0 <= i < 5 ==> #[trigger] pattern[i] == column_height(rows, i, 5)
}

/// Whether a key fits a lock.
pub open spec fn fits(key: Seq<u8>, lock: Seq<u8>) -> bool {
    forall|i: int| 0 <= i < 5 ==> (#[trigger] key[i]) + lock[i] <= 5
}

/// The number of the first `n` locks that the key fits.
pub open spec fn fitting_locks(key: Seq<u8>, locks: Seq<Lock>, n: nat) -> nat
    decreases n,
{
    if n == 0 {
        0
    } else {
        fitting_locks(key, locks, (n - 1) as nat) + if fits(key, locks[n - 1]@) {
            1nat
        } else {
            0nat
        }
    }
}

/// The number of pairs of one of the first `n` keys and a lock that it
/// fits.
pub open spec fn fitting_pairs(keys: Seq<Key>, locks: Seq<Lock>, n: nat) -> nat
    decreases n,
{
    if n == 0 {
        0
    } else {
        fitting_pairs(keys, locks, (n - 1) as nat) + fitting_locks(keys[n - 1]@, locks, locks.len())
    }
}

proof fn lemma_fitting_locks_bound(key: Seq<u8>, locks: Seq<Lock>, n: nat)
    ensures
        fitting_locks(key, locks, n) <= n,
    decreases n,
{
    if n > 0 {
        lemma_fitting_locks_bound(key, locks, (n - 1) as nat);
    }
}

proof fn lemma_fitting_pairs_bound(keys: Seq<Key>, locks: Seq<Lock>, n: nat)
    ensures
        fitting_pairs(keys, locks, n) <= n * locks.len(),
    decreases n,
{
    if n > 0 {
        lemma_fitting_pairs_bound(keys, locks, (n - 1) as nat);
        lemma_fitting_locks_bound(keys[n - 1]@, locks, locks.len());
        assert(n * locks.len() == (n - 1) * locks.len() + locks.len()) by (nonlinear_arith);
    }
}

/// Whether the key fits the lock.
pub fn does_key_fit_in_lock(key: &Key, lock: &Lock) -> (fit: bool)
    ensures
        fit == fits(key@, lock@),
{
    let mut i: usize = 0;
    while i < 5
        invariant
            i <= 5,
            forall|j: int| 0 <= j < i ==> (#[trigger] key@[j]) + lock@[j] <= 5,
        decreases 5 - i,
    {
        if key[i] as u16 + lock[i] as u16 > 5 {
            return false;
        }
        i += 1;
    }
    true
}

/// The number of pairs of a key and a lock that it fits.
pub fn count_fitting_pairs(keys: &Vec<Key>, locks: &Vec<Lock>) -> (count: u32)
    requires
        keys.len() * locks.len() <= u32::MAX,
    ensures
        count == fitting_pairs(keys@, locks@, keys.len() as nat),
{
    let mut count: u32 = 0;
    let mut k: usize = 0;
    while k < keys.len()
        invariant
            k <= keys.len(),
            keys.len() * locks.len() <= u32::MAX,
            count == fitting_pairs(keys@, locks@, k as nat),
        decreases keys.len() - k,
    {
        let key = &keys[k];
        let mut l: usize = 0;
        let ghost before = count;
        proof {
            lemma_fitting_pairs_bound(keys@, locks@, k as nat);
            assert(k * locks.len() + locks.len() <= keys.len() * locks.len()) by (nonlinear_arith)
                requires
                    k < keys.len(),
            ;
        }
        while l < locks.len()
            invariant
                l <= locks.len(),
                k < keys.len(),
                key == keys[k as int],
                before + locks.len() <= u32::MAX,
                count == before + fitting_locks(key@, locks@, l as nat),
            decreases locks.len() - l,
        {
            proof {
                lemma_fitting_locks_bound(key@, locks@, l as nat);
            }
            if does_key_fit_in_lock(key, &locks[l]) {
                count += 1;
            }
            l += 1;
        }
        k += 1;
    }
    count
}

/// The heights of the five columns of a schematic, counted over the five
/// rows that follow `first`. Nothing where one of these rows has a `#`
/// beyond the fifth column.
pub fn parse_pattern(block: &Vec<Vec<char>>, first: usize) -> (pattern: Option<[u8; 5]>)
    requires
        first + 5 <= block.len(),
    ensures
        pattern is Some <==> narrow(views(block@).subrange(first as int, first + 5)),
        pattern matches Some(heights) ==> is_pattern(
            views(block@).subrange(first as int, first + 5),
            heights@,
        ),
{
    let ghost rows = views(block@).subrange(first as int, first + 5);
    let mut result: [u8; 5] = [0, 0, 0, 0, 0];
    let mut j: usize = 0;
    while j < 5
        invariant
            j <= 5,
            first + 5 <= block.len(),
            rows == views(block@).subrange(first as int, first + 5),
            forall|r: int, i: int|
                0 <= r < j && 5 <= i < rows[r].len() ==> #[trigger] rows[r][i] != '#',
            forall|i: int| 0 <= i < 5 ==> #[trigger] result@[i] == column_height(rows, i, j as nat),
            forall|i: int| 0 <= i < 5 ==> #[trigger] result@[i] <= j,
        decreases 5 - j,
    {
        let line = &block[first + j];
        assert(rows[j as int] == line@);
        let ghost before = result@;
        let mut i: usize = 0;
        while i < line.len()
            invariant
                i <= line.len(),
                j < 5,
                rows.len() == 5,
                before.len() == 5,
                rows == views(block@).subrange(first as int, first + 5),
                rows[j as int] == line@,
                forall|c: int| 5 <= c < i ==> line@[c] != '#',
                forall|c: int| 0 <= c < 5 ==> #[trigger] before[c] <= j,
                forall|c: int|
                    0 <= c < 5 ==> #[trigger] result@[c] == before[c] + if c < i && line@[c] == '#' {
                        1int
                    } else {
                        0int
                    },
            decreases line.len() - i,
        {
            let c = char_at(line, i);
            if c == '#' {
                if i >= 5 {
                    assert(rows[j as int][i as int] == '#');
                    assert(!narrow(rows));
                    return None;
                }
                result[i] = result[i] + 1;
            }
            i += 1;
        }
        j += 1;
    }
    Some(result)
}

/// Whether the schematic of number `b` can be read: it has its top row and
/// six rows more, and none of its five middle rows has a `#` beyond the
/// fifth column.
pub open spec fn block_readable(all: Seq<Seq<char>>, b: int) -> bool {
    8 * b + 7 <= all.len() && narrow(all.subrange(8 * b + 1, 8 * b + 6))
}

/// Whether the lines can be read as schematics of eight lines each, the
/// last of which may lack its eighth.
pub open spec fn readable(all: Seq<Seq<char>>) -> bool {
    forall|b: int| 0 <= b < (all.len() + 7) / 8 ==> #[trigger] block_readable(all, b)
}

/// Whether the schematic that starts at line `start` is one of a key.
pub open spec fn is_key_at(all: Seq<Seq<char>>, start: int) -> bool {
    all[start].len() > 0 && all[start][0] == '.'
}

/// The heights of the five columns of the schematic of number `b`.
pub open spec fn pattern_of(all: Seq<Seq<char>>, b: int) -> Seq<u8> {
    Seq::new(5, |i: int| column_height(all.subrange(8 * b + 1, 8 * b + 6), i, 5) as u8)
}

/// The patterns of those of the first `n` schematics that are keys, if
/// `keys` is set, or locks, if it is not.
pub open spec fn patterns_of(all: Seq<Seq<char>>, n: nat, keys: bool) -> Seq<Seq<u8>>
    decreases n,
{
    if n == 0 {
        Seq::empty()
    } else if is_key_at(all, 8 * (n - 1)) == keys {
        patterns_of(all, (n - 1) as nat, keys).push(pattern_of(all, n - 1))
    } else {
        patterns_of(all, (n - 1) as nat, keys)
    }
}

/// What a list of patterns holds.
pub open spec fn pattern_views(patterns: Seq<[u8; 5]>) -> Seq<Seq<u8>> {
    Seq::new(patterns.len(), |i: int| patterns[i]@)
}

/// The keys and the locks of the text, in their order, or nothing where the
/// text cannot be read as schematics.
pub fn parse(input: &str) -> (result: Option<(Vec<Key>, Vec<Lock>)>)
    ensures
        result is Some <==> readable(lines_of(input@)),
        result matches Some(found) ==> {
            let all = lines_of(input@);
            let schematics = ((all.len() + 7) / 8) as nat;
            &&& pattern_views(found.0@) == patterns_of(all, schematics, true)
            &&& pattern_views(found.1@) == patterns_of(all, schematics, false)
        },
{
    let mut keys: Vec<Key> = Vec::new();
    let mut locks: Vec<Lock> = Vec::new();
    let rows = lines(input);
    let ghost all = views(rows@);
    let mut start: usize = 0;
    let mut done: usize = 0;
    while start < rows.len()
        invariant
            start <= rows.len(),
            start == if 8 * done <= rows.len() {
                8 * done
            } else {
                rows.len() as int
            },
            8 * done <= rows.len() + 7,
            all == views(rows@),
            all == lines_of(input@),
            forall|b: int| 0 <= b < done ==> #[trigger] block_readable(all, b),
            pattern_views(keys@) == patterns_of(all, done as nat, true),
            pattern_views(locks@) == patterns_of(all, done as nat, false),
        decreases rows.len() - start,
    {
        let ghost b = done as int;
        assert(8 * b == start);
        if rows.len() - start < 7 {
            assert(!block_readable(all, b));
            return None;
        }
        let pattern = match parse_pattern(&rows, start + 1) {
            None => {
                assert(!block_readable(all, b));
                return None;
            },
            Some(pattern) => pattern,
        };
        assert(block_readable(all, b));
        let top_row = &rows[start];
        assert(all[start as int] == top_row@);
        assert(pattern@ == pattern_of(all, b)) by {
            assert forall|i: int| 0 <= i < 5 implies pattern@[i] == pattern_of(all, b)[i] by {
                assert(pattern@[i] == column_height(all.subrange(8 * b + 1, 8 * b + 6), i, 5));
            }
        }
        let ghost keys_before = pattern_views(keys@);
        let ghost locks_before = pattern_views(locks@);
        if top_row.len() > 0 && top_row[0] == '.' {
            keys.push(pattern);
            assert(pattern_views(keys@) == keys_before.push(pattern@));
        } else {
            locks.push(pattern);
            assert(pattern_views(locks@) == locks_before.push(pattern@));
        }
        if rows.len() - start >= 8 {
            start += 8;
        } else {
            start = rows.len();
        }
        done += 1;
    }
    assert(done == (rows.len() + 7) / 8);
    Some((keys, locks))
}

/// The number of pairs of a key and a lock of the text that fit; nothing
/// where the text cannot be read, or where there are more pairs than a
/// 32-bit number counts.
pub fn solve(input: &str) -> (count: Option<u32>)
    ensures
        count is Some <==> {
            let all = lines_of(input@);
            let schematics = ((all.len() + 7) / 8) as nat;
            readable(all) && patterns_of(all, schematics, true).len() * patterns_of(
                all,
                schematics,
                false,
            ).len() <= u32::MAX
        },
        count matches Some(pairs) ==> exists|keys: Seq<Key>, locks: Seq<Lock>|
            {
                let all = lines_of(input@);
                let schematics = ((all.len() + 7) / 8) as nat;
                &&& pattern_views(keys) == patterns_of(all, schematics, true)
                &&& pattern_views(locks) == patterns_of(all, schematics, false)
                &&& pairs == #[trigger] fitting_pairs(keys, locks, keys.len())
            },
{
    match parse(input) {
        None => None,
        Some((keys, locks)) => {
            proof {
                assert(pattern_views(keys@).len() == keys.len());
                assert(pattern_views(locks@).len() == locks.len());
            }
            let pairs = (keys.len() as u64).checked_mul(locks.len() as u64);
            match pairs {
                None => None,
                Some(pairs) => {
                    if pairs > u32::MAX as u64 {
                        None
                    } else {
                        let count = count_fitting_pairs(&keys, &locks);
                        assert(count == fitting_pairs(keys@, locks@, keys@.len()));
                        Some(count)
                    }
                },
            }
        },
    }
}

} // verus!
