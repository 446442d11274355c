//! A disk whose files are moved to its front, block by block or file by
//! file, and the checksum of what results.

use crate::text::{all_digits, chars_of, digit_of, digit_value};
use vstd::prelude::*;

verus! {

/// A block of the disk: free, or part of the file with this number.
#[derive(Clone, Copy, Debug, PartialEq, Eq)]
pub enum DiskBlock {
    Free,
    File(usize),
}

/// A run of blocks: free blocks, so many of them, or the file with this
/// number and of this size.
#[derive(Clone, Copy, Debug, PartialEq, Eq)]
pub enum DiskFragment {
    Free(u8),
    File(usize, u8),
}

/// The run that the digit at `i` stands for: a file at the even places,
/// numbered in turn, and free blocks at the odd ones.
pub open spec fn fragment_at(text: Seq<char>, i: int) -> DiskFragment {
    if i % 2 == 0 {
        DiskFragment::File((i / 2) as usize, digit_value(text[i]) as u8)
    } else {
        DiskFragment::Free(digit_value(text[i]) as u8)
    }
}

/// The runs that a text of digits stands for.
pub open spec fn fragments_of(text: Seq<char>) -> Seq<DiskFragment> {
    Seq::new(text.len(), |i: int| fragment_at(text, i))
}

/// The blocks of one run.
pub open spec fn run_of(fragment: DiskFragment) -> Seq<DiskBlock> {
    match fragment {
        DiskFragment::Free(size) => Seq::new(size as nat, |i: int| DiskBlock::Free),
        DiskFragment::File(id, size) => Seq::new(size as nat, |i: int| DiskBlock::File(id)),
    }
}

/// The blocks of the runs, one run after the other.
pub open spec fn blocks_of(fragments: Seq<DiskFragment>) -> Seq<DiskBlock>
    decreases fragments.len(),
{
    if fragments.len() == 0 {
        Seq::empty()
    } else {
        blocks_of(fragments.drop_last()) + run_of(fragments.last())
    }
}

/// What a block adds to the checksum at place `i`: the number of its file
/// times the place.
pub open spec fn block_sum(block: DiskBlock, i: int) -> nat {
    match block {
        DiskBlock::Free => 0,
        DiskBlock::File(id) => (id * i) as nat,
    }
}

/// The checksum of the first `n` blocks.
pub open spec fn checksum(disk: Seq<DiskBlock>, n: nat) -> nat
    decreases n,
{
    if n == 0 {
        0
    } else {
        checksum(disk, (n - 1) as nat) + block_sum(disk[n - 1], n - 1)
    }
}

/// The disk once the blocks of its files have been moved to the front: with
/// the places from `lo` to `hi` left to look at, a file block at `lo` stays,
/// a free block at `hi` stays, and otherwise the block at `hi` is taken out
/// and put in the place of the free block at `lo`.
pub open spec fn compacted(disk: Seq<DiskBlock>, lo: int, hi: int) -> Seq<DiskBlock>
    decreases hi - lo + 1,
{
    if lo < 0 || lo >= hi || hi >= disk.len() {
        disk
    } else if disk[lo] is File {
        compacted(disk, lo + 1, hi)
    } else if disk[hi] is Free {
        compacted(disk, lo, hi - 1)
    } else {
        compacted(disk.remove(hi).update(lo, disk[hi]), lo + 1, hi - 1)
    }
}

/// Whether the run at `j` is free and has room for `size` blocks.
pub open spec fn has_room(disk: Seq<DiskFragment>, j: int, size: u8) -> bool {
    disk[j] matches DiskFragment::Free(free) && free >= size
}

/// The first place from `from` on and before `upto` with room for `size`
/// blocks; `upto` where there is none.
pub open spec fn first_fit(disk: Seq<DiskFragment>, size: u8, from: int, upto: int) -> int
    decreases upto - from,
{
    if from >= upto {
        upto
    } else if has_room(disk, from, size) {
        from
    } else {
        first_fit(disk, size, from + 1, upto)
    }
}

/// The disk once the run at `i` has been looked at: a file goes to the
/// first free run before it that has room for it, leaves free blocks
/// behind, and the room that it does not fill follows it as a free run of
/// its own.
pub open spec fn move_file(disk: Seq<DiskFragment>, i: int) -> Seq<DiskFragment> {
    match disk[i] {
        DiskFragment::Free(_) => disk,
        DiskFragment::File(id, size) => {
            let j = first_fit(disk, size, 0, i);
            if j < i {
                let free = disk[j]->Free_0;
                let placed = disk.update(j, disk[i]).update(i, DiskFragment::Free(size));
                if size < free {
                    placed.insert(j + 1, DiskFragment::Free((free - size) as u8))
                } else {
                    placed
                }
            } else {
                disk
            }
        },
    }
}

/// The disk once the runs from `i` down to the first have been looked at,
/// each at the place that it has by then.
pub open spec fn moved(disk: Seq<DiskFragment>, i: int) -> Seq<DiskFragment>
    decreases i + 1,
{
    if i < 0 {
        disk
    } else {
        moved(move_file(disk, i), i - 1)
    }
}

/// The runs that the text writes; nothing where it holds anything but
/// digits.
pub fn parse(input: &str) -> (result: Option<Vec<DiskFragment>>)
    ensures
        result is Some <==> all_digits(input@),
        result matches Some(disk) ==> disk@ == fragments_of(input@),
{
    let text = chars_of(input);
    let mut disk: Vec<DiskFragment> = Vec::new();
    let mut i: usize = 0;
    while i < text.len()
        invariant
            i <= text.len(),
            text@ == input@,
            disk.len() == i,
            forall|j: int| 0 <= j < i ==> crate::text::is_digit(#[trigger] text[j]),
            forall|j: int| 0 <= j < i ==> #[trigger] disk[j] == fragment_at(text@, j),
        decreases text.len() - i,
    {
        match digit_of(text[i]) {
            None => {
                return None;
            },
            Some(size) => {
                if i % 2 == 0 {
                    disk.push(DiskFragment::File(i / 2, size));
                } else {
                    disk.push(DiskFragment::Free(size));
                }
            },
        }
        i += 1;
    }
    assert(disk@ =~= fragments_of(input@));
    Some(disk)
}

/// The blocks of the runs.
pub fn expand(fragments: &Vec<DiskFragment>) -> (disk: Vec<DiskBlock>)
    ensures
        disk@ == blocks_of(fragments@),
{
    let mut disk: Vec<DiskBlock> = Vec::new();
    let mut i: usize = 0;
    assert(fragments@.take(0) =~= Seq::<DiskFragment>::empty());
    while i < fragments.len()
        invariant
            i <= fragments.len(),
            disk@ == blocks_of(fragments@.take(i as int)),
        decreases fragments.len() - i,
    {
        let ghost before = disk@;
        let (block, size) = match fragments[i] {
            DiskFragment::Free(size) => (DiskBlock::Free, size),
            DiskFragment::File(id, size) => (DiskBlock::File(id), size),
        };
        let mut n: u8 = 0;
        while n < size
            invariant
                n <= size,
                disk@.len() == before.len() + n,
                disk@.take(before.len() as int) == before,
                forall|k: int| before.len() <= k < disk.len() ==> #[trigger] disk[k] == block,
            decreases size - n,
        {
            disk.push(block);
            n += 1;
        }
        proof {
            assert(fragments@.take(i + 1).drop_last() == fragments@.take(i as int));
            assert(fragments@.take(i + 1).last() == fragments[i as int]);
            assert(disk@ =~= before + run_of(fragments[i as int]));
        }
        i += 1;
    }
    assert(fragments@.take(i as int) == fragments@);
    disk
}

/// Moves the blocks of the files of a disk that is not empty to the front.
pub fn compact(disk: &mut Vec<DiskBlock>)
    requires
        old(disk).len() > 0,
    ensures
        final(disk)@ == compacted(old(disk)@, 0, old(disk).len() - 1),
{
    let mut i_insert: usize = 0;
    let mut i_end: usize = disk.len() - 1;
    while i_insert < i_end
        invariant
            i_end < disk.len(),
            compacted(disk@, i_insert as int, i_end as int) == compacted(
                old(disk)@,
                0,
                old(disk).len() - 1,
            ),
        decreases i_end + 1 - i_insert,
    {
        if let DiskBlock::File(_) = disk[i_insert] {
            i_insert += 1;
            continue;
        }
        if let DiskBlock::Free = disk[i_end] {
            i_end -= 1;
            continue;
        }
        let removed = disk.remove(i_end);
        disk[i_insert] = removed;
        i_insert += 1;
        i_end -= 1;
    }
}

/// The checksum grows with the number of blocks that are counted.
pub proof fn lemma_checksum_grows(disk: Seq<DiskBlock>, n: nat, m: nat)
    requires
        n <= m,
    ensures
        checksum(disk, n) <= checksum(disk, m),
    decreases m,
{
    if n < m {
        lemma_checksum_grows(disk, n, (m - 1) as nat);
    }
}

/// The checksum of the blocks, where it fits.
pub fn calculate_checksum_on_blocks(disk: &Vec<DiskBlock>) -> (result: Option<usize>)
    ensures
        result is Some <==> checksum(disk@, disk@.len()) <= usize::MAX,
        result matches Some(sum) ==> sum == checksum(disk@, disk@.len()),
{
    let mut sum: usize = 0;
    let mut i: usize = 0;
    while i < disk.len()
        invariant
            i <= disk.len(),
            sum == checksum(disk@, i as nat),
        decreases disk.len() - i,
    {
        proof {
            lemma_checksum_grows(disk@, (i + 1) as nat, disk@.len());
        }
        if let DiskBlock::File(id) = disk[i] {
            let more = match id.checked_mul(i) {
                None => {
                    return None;
                },
                Some(more) => more,
            };
            sum = match sum.checked_add(more) {
                None => {
                    return None;
                },
                Some(sum) => sum,
            };
        }
        i += 1;
    }
    Some(sum)
}

/// The checksum of the disk that the text writes, once the blocks of its
/// files have been moved to the front; nothing where the text holds
/// anything but digits, where the disk has no block, or where the checksum
/// does not fit.
pub fn move_file_blocks_to_front(input: &str) -> (result: Option<usize>)
    ensures
        result is Some <==> {
            let disk = blocks_of(fragments_of(input@));
            let done = compacted(disk, 0, disk.len() - 1);
            all_digits(input@) && disk.len() > 0 && checksum(done, done.len()) <= usize::MAX
        },
        result matches Some(sum) ==> {
            let disk = blocks_of(fragments_of(input@));
            let done = compacted(disk, 0, disk.len() - 1);
            sum == checksum(done, done.len())
        },
{
    match parse(input) {
        None => None,
        Some(fragments) => {
            let mut disk = expand(&fragments);
            if disk.len() == 0 {
                None
            } else {
                compact(&mut disk);
                calculate_checksum_on_blocks(&disk)
            }
        },
    }
}

/// The first free run before the run at `upto` that has room for `size`
/// blocks; `upto` where there is none.
fn find_room(disk: &Vec<DiskFragment>, size: u8, upto: usize) -> (j: usize)
    requires
        upto < disk.len(),
    ensures
        j == first_fit(disk@, size, 0, upto as int),
        j <= upto,
        j < upto ==> has_room(disk@, j as int, size),
{
    let mut j: usize = 0;
    while j < upto
        invariant
            j <= upto < disk.len(),
            first_fit(disk@, size, 0, upto as int) == first_fit(disk@, size, j as int, upto as int),
        decreases upto - j,
    {
        if let DiskFragment::Free(free_size) = disk[j] {
            if free_size >= size {
                return j;
            }
        }
        j += 1;
    }
    j
}

/// Looks at every run from the last to the first, and moves each file to
/// the first free run before it that has room for it.
pub fn settle(disk: &mut Vec<DiskFragment>)
    ensures
        final(disk)@ == moved(old(disk)@, old(disk).len() - 1),
{
    let mut next: usize = disk.len();
    while next > 0
        invariant
            next <= disk.len(),
            moved(disk@, next - 1) == moved(old(disk)@, old(disk).len() - 1),
        decreases next,
    {
        let i = next - 1;
        let ghost before = disk@;
        if let DiskFragment::File(id, file_size) = disk[i] {
            let j = find_room(disk, file_size, i);
            if j < i {
                if let DiskFragment::Free(free_size) = disk[j] {
                    let file = disk.remove(i);
                    disk[j] = file;
                    disk.insert(i, DiskFragment::Free(file_size));
                    assert(disk@ =~= before.update(j as int, before[i as int]).update(
                        i as int,
                        DiskFragment::Free(file_size),
                    ));
                    if file_size < free_size {
                        disk.insert(j + 1, DiskFragment::Free(free_size - file_size));
                    }
                }
            }
        }
        assert(disk@ == move_file(before, i as int));
        next -= 1;
    }
}

/// The blocks of the first runs are the first blocks of all the runs.
pub proof fn lemma_blocks_of_first(fragments: Seq<DiskFragment>, k: int)
    requires
        0 <= k <= fragments.len(),
    ensures
        blocks_of(fragments.take(k)).len() <= blocks_of(fragments).len(),
        blocks_of(fragments).take(blocks_of(fragments.take(k)).len() as int) == blocks_of(
            fragments.take(k),
        ),
    decreases fragments.len(),
{
    if k == fragments.len() {
        assert(fragments.take(k) == fragments);
    } else {
        assert(fragments.drop_last().take(k) == fragments.take(k));
        lemma_blocks_of_first(fragments.drop_last(), k);
    }
}

/// Free blocks add nothing to the checksum.
proof fn lemma_free_blocks(disk: Seq<DiskBlock>, n: nat, m: nat)
    requires
        n <= m <= disk.len(),
        forall|k: int| n <= k < m ==> #[trigger] disk[k] == DiskBlock::Free,
    ensures
        checksum(disk, m) == checksum(disk, n),
    decreases m,
{
    if n < m {
        lemma_free_blocks(disk, n, (m - 1) as nat);
    }
}

/// The checksum of the blocks of the runs, where it fits and the blocks can
/// be counted.
pub fn calculate_checksum_on_fragments(disk: &Vec<DiskFragment>) -> (result: Option<usize>)
    ensures
        result is Some <==> checksum(blocks_of(disk@), blocks_of(disk@).len()) <= usize::MAX
            && blocks_of(disk@).len() <= usize::MAX,
        result matches Some(sum) ==> sum == checksum(blocks_of(disk@), blocks_of(disk@).len()),
{
    let ghost all = blocks_of(disk@);
    let mut sum: usize = 0;
    let mut i: usize = 0;
    let mut k: usize = 0;
    assert(disk@.take(0) =~= Seq::<DiskFragment>::empty());
    while k < disk.len()
        invariant
            k <= disk.len(),
            all == blocks_of(disk@),
            i == blocks_of(disk@.take(k as int)).len(),
            sum == checksum(all, i as nat),
        decreases disk.len() - k,
    {
        proof {
            lemma_blocks_of_first(disk@, k as int);
            lemma_blocks_of_first(disk@, k + 1);
            assert(disk@.take(k + 1).drop_last() == disk@.take(k as int));
            assert(disk@.take(k + 1).last() == disk[k as int]);
        }
        let ghost run = run_of(disk[k as int]);
        let ghost end = i + run.len();
        assert(end <= all.len());
        assert(forall|t: int| 0 <= t < run.len() ==> all[i + t] == #[trigger] run[t]) by {
            assert forall|t: int| 0 <= t < run.len() implies all[i + t] == #[trigger] run[t] by {
                assert(all.take(end as int)[i + t] == all[i + t]);
            }
        }
        match disk[k] {
            DiskFragment::File(id, size) => {
                let mut n: u8 = 0;
                while n < size
                    invariant
                        n <= size,
                        size == run.len(),
                        all == blocks_of(disk@),
                        end <= all.len(),
                        i + (size - n) == end,
                        forall|t: int| 0 <= t < run.len() ==> all[end - run.len() + t] == #[trigger] run[t],
                        run == run_of(DiskFragment::File(id, size)),
                        sum == checksum(all, i as nat),
                    decreases size - n,
                {
                    proof {
                        lemma_checksum_grows(all, (i + 1) as nat, all.len());
                        assert(all[i as int] == run[n as int]);
                    }
                    let more = match id.checked_mul(i) {
                        None => {
                            return None;
                        },
                        Some(more) => more,
                    };
                    sum = match sum.checked_add(more) {
                        None => {
                            return None;
                        },
                        Some(sum) => sum,
                    };
                    i = match i.checked_add(1) {
                        None => {
                            return None;
                        },
                        Some(i) => i,
                    };
                    n += 1;
                }
            },
            DiskFragment::Free(size) => {
                proof {
                    assert forall|p: int| i <= p < end implies #[trigger] all[p] == DiskBlock::Free by {
                        assert(all[i + (p - i)] == run[p - i]);
                    }
                    lemma_free_blocks(all, i as nat, end as nat);
                }
                i = match i.checked_add(size as usize) {
                    None => {
                        return None;
                    },
                    Some(i) => i,
                };
            },
        }
        k += 1;
    }
    assert(disk@.take(k as int) == disk@);
    Some(sum)
}

/// The checksum of the disk that the text writes, once its files have been
/// moved to the front each in one piece; nothing where the text holds
/// anything but digits, or where the checksum does not fit.
pub fn move_complete_files_to_front(input: &str) -> (result: Option<usize>)
    ensures
        result is Some <==> {
            let disk = fragments_of(input@);
            let done = blocks_of(moved(disk, disk.len() - 1));
            all_digits(input@) && checksum(done, done.len()) <= usize::MAX && done.len()
                <= usize::MAX
        },
        result matches Some(sum) ==> {
            let disk = fragments_of(input@);
            let done = blocks_of(moved(disk, disk.len() - 1));
            sum == checksum(done, done.len())
        },
{
    match parse(input) {
        None => None,
        Some(fragments) => {
            let mut disk = fragments;
            settle(&mut disk);
            calculate_checksum_on_fragments(&disk)
        },
    }
}

/// Both checksums of the disk that the text writes.
pub fn solve(input: &str) -> (result: Option<(usize, usize)>)
    ensures
        result matches Some(sums) ==> {
            let blocks = blocks_of(fragments_of(input@));
            let by_block = compacted(blocks, 0, blocks.len() - 1);
            let by_file = blocks_of(moved(fragments_of(input@), fragments_of(input@).len() - 1));
            &&& all_digits(input@)
            &&& blocks.len() > 0
            &&& sums.0 == checksum(by_block, by_block.len())
            &&& sums.1 == checksum(by_file, by_file.len())
        },
        result is None ==> {
            let blocks = blocks_of(fragments_of(input@));
            let by_block = compacted(blocks, 0, blocks.len() - 1);
            let by_file = blocks_of(moved(fragments_of(input@), fragments_of(input@).len() - 1));
            ||| !all_digits(input@)
            ||| blocks.len() == 0
            ||| checksum(by_block, by_block.len()) > usize::MAX
            ||| checksum(by_file, by_file.len()) > usize::MAX
            ||| by_file.len() > usize::MAX
        },
{
    let part1 = match move_file_blocks_to_front(input) {
        None => {
            return None;
        },
        Some(sum) => sum,
    };
    let part2 = match move_complete_files_to_front(input) {
        None => {
            return None;
        },
        Some(sum) => sum,
    };
    Some((part1, part2))
}

} // verus!
