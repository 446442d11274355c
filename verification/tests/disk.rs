use aoc24::disk::{
    calculate_checksum_on_blocks, calculate_checksum_on_fragments, compact, expand,
    move_complete_files_to_front, move_file_blocks_to_front, parse, settle, solve, DiskBlock,
    DiskFragment,
};

const EXAMPLE: &str = "2333133121414131402";

#[test]
fn the_example_disk_sums_to_1928_and_2858() {
    assert_eq!(move_file_blocks_to_front(EXAMPLE), Some(1928));
    assert_eq!(move_complete_files_to_front(EXAMPLE), Some(2858));
    assert_eq!(solve(EXAMPLE), Some((1928, 2858)));
}

#[test]
fn a_short_disk_sums_to_60_and_132() {
    assert_eq!(solve("12345"), Some((60, 132)));
    assert_eq!(solve("1313165"), Some((69, 169)));
    assert_eq!(solve("233313312141413140211"), Some((2132, 2910)));
}

#[test]
fn digits_are_files_and_free_runs_in_turn() {
    assert_eq!(
        parse("123"),
        Some(vec![DiskFragment::File(0, 1), DiskFragment::Free(2), DiskFragment::File(1, 3)])
    );
    assert_eq!(parse("12a"), None);
    assert_eq!(parse("12\n"), None);
    assert_eq!(parse(""), Some(vec![]));
}

#[test]
fn runs_expand_to_blocks() {
    let disk = expand(&parse("1203").unwrap());
    assert_eq!(
        disk,
        vec![
            DiskBlock::File(0),
            DiskBlock::Free,
            DiskBlock::Free,
            DiskBlock::Free,
            DiskBlock::Free,
            DiskBlock::Free
        ]
    );
}

#[test]
fn blocks_move_from_the_end_to_the_first_free_places() {
    let mut disk = expand(&parse("12345").unwrap());
    compact(&mut disk);
    let files: Vec<DiskBlock> = [0, 2, 2, 1, 1, 1, 2, 2, 2].iter().map(|&id| DiskBlock::File(id)).collect();
    assert_eq!(&disk[..9], &files[..]);
    assert_eq!(disk.len(), 10);
    assert_eq!(disk[9], DiskBlock::Free);
    assert_eq!(calculate_checksum_on_blocks(&disk), Some(60));
}

#[test]
fn a_file_moves_whole_and_leaves_the_rest_of_the_room_free() {
    let mut disk = parse("13002").unwrap();
    settle(&mut disk);
    assert_eq!(
        disk,
        vec![
            DiskFragment::File(0, 1),
            DiskFragment::File(2, 2),
            DiskFragment::File(1, 0),
            DiskFragment::Free(1),
            DiskFragment::Free(0),
            DiskFragment::Free(0),
            DiskFragment::Free(2),
        ]
    );
    assert_eq!(calculate_checksum_on_fragments(&disk), Some(6));
}

#[test]
fn a_disk_without_blocks_has_no_first_checksum() {
    assert_eq!(move_file_blocks_to_front(""), None);
    assert_eq!(move_file_blocks_to_front("0"), None);
    assert_eq!(move_complete_files_to_front(""), Some(0));
    assert_eq!(solve(""), None);
    assert_eq!(solve("1"), Some((0, 0)));
    assert_eq!(solve("90909"), Some((513, 513)));
}

#[test]
fn a_checksum_that_does_not_fit_is_refused() {
    let disk = vec![DiskBlock::Free, DiskBlock::Free, DiskBlock::File(usize::MAX)];
    assert_eq!(calculate_checksum_on_blocks(&disk), None);
    let disk = vec![DiskFragment::Free(1), DiskFragment::File(usize::MAX, 2)];
    assert_eq!(calculate_checksum_on_fragments(&disk), None);
    let disk = vec![DiskFragment::Free(1), DiskFragment::File(usize::MAX, 1)];
    assert_eq!(calculate_checksum_on_fragments(&disk), Some(usize::MAX));
}
