//! Hiking trails on a map of heights: a trail starts at height 0, climbs by
//! exactly one with every step up, down, left or right, and ends at height 9.
//!
//! The map is read from text whose lines end in a carriage return and a line
//! feed. The heights are held in one row after the other, `cols` to a row.

use crate::text::{
    char_at, chars_of, digit_of, digit_value, first_index_of, is_digit, lines_of, lines_of_chars,
    views,
};
use std::collections::HashSet;
use vstd::prelude::*;

verus! {

broadcast use vstd::std_specs::hash::group_hash_axioms;

/// The largest number of rows and of columns of a map: places are held in
/// signed bytes.
pub const MAX_SIDE: usize = 127;

/// A place on the map: column `x` of row `y`.
#[derive(Debug, Clone, Copy)]
pub struct Point {
    pub x: i8,
    pub y: i8,
}

/// A map of heights with the places of height 0.
pub struct TrailMap {
    pub rows: usize,
    pub cols: usize,
    pub data: Vec<u8>,
    pub trailheads: Vec<Point>,
}

/// The heights that a line writes: its digits, in order; other characters
/// are passed over.
pub open spec fn line_heights(line: Seq<char>) -> Seq<u8>
    decreases line.len(),
{
    if line.len() == 0 {
        Seq::empty()
    } else if is_digit(line.last()) {
        line_heights(line.drop_last()).push(digit_value(line.last()) as u8)
    } else {
        line_heights(line.drop_last())
    }
}

/// The heights that the lines write, one line after the other.
pub open spec fn all_heights(lines: Seq<Seq<char>>) -> Seq<u8>
    decreases lines.len(),
{
    if lines.len() == 0 {
        Seq::empty()
    } else {
        all_heights(lines.drop_last()) + line_heights(lines.last())
    }
}

/// The places of the zeros of line `y`, from left to right.
pub open spec fn line_trailheads(line: Seq<char>, y: int) -> Seq<Point>
    decreases line.len(),
{
    if line.len() == 0 {
        Seq::empty()
    } else if line.last() == '0' {
        line_trailheads(line.drop_last(), y).push(Point { x: (line.len() - 1) as i8, y: y as i8 })
    } else {
        line_trailheads(line.drop_last(), y)
    }
}

/// The places of the zeros of all lines, in reading order.
pub open spec fn all_trailheads(lines: Seq<Seq<char>>) -> Seq<Point>
    decreases lines.len(),
{
    if lines.len() == 0 {
        Seq::empty()
    } else {
        all_trailheads(lines.drop_last()) + line_trailheads(lines.last(), lines.len() - 1)
    }
}

/// Whether the first `c` of `text` stands at place `n`.
pub open spec fn first_at(text: Seq<char>, c: char, n: int) -> bool {
    &&& 0 <= n < text.len()
    &&& text[n] == c
    &&& forall|j: int| 0 <= j < n ==> text[j] != c
}

/// Whether the text can be read as a map: it holds a carriage return, no
/// more than `MAX_SIDE` characters stand before the first, and it has no more
/// than `MAX_SIDE` lines, none of more than `MAX_SIDE` characters.
pub open spec fn readable(text: Seq<char>) -> bool {
    &&& exists|n: int| 0 <= n <= MAX_SIDE && first_at(text, '\r', n)
    &&& lines_of(text).len() <= MAX_SIDE
    &&& forall|y: int| 0 <= y < lines_of(text).len() ==> (#[trigger] lines_of(text)[y]).len() <= MAX_SIDE
}

/// The sum of two counts that are held in 16 bits.
fn add_wrapped(a: u16, b: u16, Ghost(whole_a): Ghost<nat>, Ghost(whole_b): Ghost<nat>) -> (sum: u16)
    requires
        a == whole_a % 0x10000,
        b == whole_b % 0x10000,
    ensures
        sum == (whole_a + whole_b) % 0x10000,
{
    proof {
        vstd::arithmetic::div_mod::lemma_add_mod_noop(whole_a as int, whole_b as int, 0x10000);
    }
    a.wrapping_add(b)
}

/// The number of the pair of a trailhead and a place.
pub open spec fn pair_key(from: Point, x: int, y: int) -> int {
    ((from.x * 128 + from.y) * 128 + x) * 128 + y
}

/// Whether a place lies where a map can have one.
pub open spec fn on_a_map(place: Point) -> bool {
    0 <= place.x < MAX_SIDE && 0 <= place.y < MAX_SIDE
}

impl TrailMap {
    /// The invariant of a map: it has no more than `MAX_SIDE` rows and
    /// columns, and its trailheads lie where a map can have them.
    pub open spec fn wf(&self) -> bool {
        &&& self.rows <= MAX_SIDE
        &&& self.cols <= MAX_SIDE
        &&& forall|i: int| 0 <= i < self.trailheads.len() ==> on_a_map(#[trigger] self.trailheads[i])
    }

    /// The height at column `x` of row `y`, if the map has one there.
    pub open spec fn height_at(&self, x: int, y: int) -> Option<u8> {
        if 0 <= x < self.cols && 0 <= y < self.rows && y * self.cols + x < self.data.len() {
            Some(self.data[y * self.cols + x])
        } else {
            None
        }
    }

    /// The number of trails that lead from a place of `height` up to
    /// height 9.
    pub open spec fn trails_from(&self, x: int, y: int, height: nat) -> nat
        decreases 10 - height, 0nat,
    {
        if height >= 9 {
            1
        } else {
            self.trails_via(x, y - 1, height + 1) + self.trails_via(x, y + 1, height + 1)
                + self.trails_via(x - 1, y, height + 1) + self.trails_via(x + 1, y, height + 1)
        }
    }

    /// The number of trails that go on over a place, which they can where
    /// it has the height `height`.
    pub open spec fn trails_via(&self, x: int, y: int, height: nat) -> nat
        decreases 10 - height, 1nat,
    {
        if height <= 9 && self.height_at(x, y) == Some(height as u8) {
            self.trails_from(x, y, height)
        } else {
            0
        }
    }

    /// The pairs of the trailhead `from` and a place of height 9 to which a
    /// trail leads from a place of `height`, as their numbers.
    pub open spec fn peaks_from(&self, from: Point, x: int, y: int, height: nat) -> Set<u32>
        decreases 10 - height, 0nat,
    {
        if height >= 9 {
            set![pair_key(from, x, y) as u32]
        } else {
            self.peaks_via(from, x, y - 1, height + 1).union(
                self.peaks_via(from, x, y + 1, height + 1),
            ).union(self.peaks_via(from, x - 1, y, height + 1)).union(
                self.peaks_via(from, x + 1, y, height + 1),
            )
        }
    }

    /// The pairs that are reached over a place, which a trail can cross
    /// where it has the height `height`.
    pub open spec fn peaks_via(&self, from: Point, x: int, y: int, height: nat) -> Set<u32>
        decreases 10 - height, 1nat,
    {
        if height <= 9 && self.height_at(x, y) == Some(height as u8) {
            self.peaks_from(from, x, y, height)
        } else {
            Set::empty()
        }
    }

    /// The pairs of a trailhead and a place of height 9 that a trail joins,
    /// for the first `n` trailheads.
    pub open spec fn joined_pairs(&self, n: nat) -> Set<u32>
        decreases n,
    {
        if n == 0 {
            Set::empty()
        } else {
            let from = self.trailheads[n - 1];
            self.joined_pairs((n - 1) as nat).union(self.peaks_from(from, from.x as int, from.y as int, 0))
        }
    }

    /// The number of trails from the first `n` trailheads.
    pub open spec fn trail_count(&self, n: nat) -> nat
        decreases n,
    {
        if n == 0 {
            0
        } else {
            let from = self.trailheads[n - 1];
            self.trail_count((n - 1) as nat) + self.trails_from(from.x as int, from.y as int, 0)
        }
    }

    /// The height at column `x` of row `y`, if the map has one there.
    fn get(&self, x: i8, y: i8) -> (found: Option<u8>)
        requires
            self.rows <= MAX_SIDE,
            self.cols <= MAX_SIDE,
        ensures
            found == self.height_at(x as int, y as int),
    {
        if x > -1 && y > -1 {
            let x = x as usize;
            let y = y as usize;
            if y < self.rows && x < self.cols {
                assert(y * self.cols + x < 128 * 128) by (nonlinear_arith)
                    requires
                        y < 128,
                        self.cols < 128,
                        x < 128,
                ;
                let index = y * self.cols + x;
                if index < self.data.len() {
                    return Some(self.data[index]);
                }
            }
        }
        None
    }

    /// The score of the map: the number of pairs of a trailhead and a place
    /// of height 9 that a trail joins, and the number of trails, which is
    /// counted in 16 bits and wraps around.
    pub fn find_trails_and_calculate_score(&self) -> (score: (usize, u16))
        requires
            self.wf(),
        ensures
            score.0 == self.joined_pairs(self.trailheads.len() as nat).len(),
            score.1 == self.trail_count(self.trailheads.len() as nat) % 0x10000,
    {
        let mut found_trails: HashSet<u32> = HashSet::new();
        let mut part2: u16 = 0;
        let mut i: usize = 0;
        while i < self.trailheads.len()
            invariant
                i <= self.trailheads.len(),
                self.wf(),
                found_trails@ == self.joined_pairs(i as nat),
                part2 == self.trail_count(i as nat) % 0x10000,
            decreases self.trailheads.len() - i,
        {
            let trailhead = self.trailheads[i];
            assert(on_a_map(self.trailheads[i as int]));
            let found = self.find_paths_up(&trailhead, 0, &trailhead, &mut found_trails);
            part2 = add_wrapped(
                part2,
                found,
                Ghost(self.trail_count(i as nat)),
                Ghost(self.trails_from(trailhead.x as int, trailhead.y as int, 0)),
            );
            i += 1;
        }
        (found_trails.len(), part2)
    }

    /// The number of trails from `current`, a place of `height`, up to
    /// height 9, counted in 16 bits; the pairs of `trailhead` and the places
    /// where they end are added to `found_trails`.
    fn find_paths_up(
        &self,
        current: &Point,
        height: u8,
        trailhead: &Point,
        found_trails: &mut HashSet<u32>,
    ) -> (count: u16)
        requires
            self.rows <= MAX_SIDE,
            self.cols <= MAX_SIDE,
            height <= 9,
            on_a_map(*current),
            on_a_map(*trailhead),
        ensures
            count == self.trails_from(current.x as int, current.y as int, height as nat) % 0x10000,
            final(found_trails)@ == old(found_trails)@.union(
                self.peaks_from(*trailhead, current.x as int, current.y as int, height as nat),
            ),
        decreases 10 - height, 0nat,
    {
        if height == 9 {
            let key = ((trailhead.x as u32 * 128 + trailhead.y as u32) * 128 + current.x as u32) * 128
                + current.y as u32;
            found_trails.insert(key);
            assert(found_trails@ == old(found_trails)@.union(set![key]));
            return 1;
        }
        let height = height + 1;
        let up = Point { x: current.x, y: current.y - 1 };
        let down = Point { x: current.x, y: current.y + 1 };
        let left = Point { x: current.x - 1, y: current.y };
        let right = Point { x: current.x + 1, y: current.y };
        let ghost before = found_trails@;
        let ghost to = height as nat;
        let by_up = self.climb(&up, height, trailhead, found_trails);
        let ghost after_up = found_trails@;
        let by_down = self.climb(&down, height, trailhead, found_trails);
        let ghost after_down = found_trails@;
        let by_left = self.climb(&left, height, trailhead, found_trails);
        let ghost after_left = found_trails@;
        let by_right = self.climb(&right, height, trailhead, found_trails);
        let first = add_wrapped(by_up, by_down, Ghost(self.trails_via(up.x as int, up.y as int, to)),
            Ghost(self.trails_via(down.x as int, down.y as int, to)));
        let second = add_wrapped(first, by_left, Ghost(self.trails_via(up.x as int, up.y as int, to)
            + self.trails_via(down.x as int, down.y as int, to)),
            Ghost(self.trails_via(left.x as int, left.y as int, to)));
        let result = add_wrapped(second, by_right, Ghost(self.trails_via(up.x as int, up.y as int, to)
            + self.trails_via(down.x as int, down.y as int, to)
            + self.trails_via(left.x as int, left.y as int, to)),
            Ghost(self.trails_via(right.x as int, right.y as int, to)));
        proof {
            let via_up = self.peaks_via(*trailhead, up.x as int, up.y as int, to);
            let via_down = self.peaks_via(*trailhead, down.x as int, down.y as int, to);
            let via_left = self.peaks_via(*trailhead, left.x as int, left.y as int, to);
            let via_right = self.peaks_via(*trailhead, right.x as int, right.y as int, to);
            assert(found_trails@ =~= before.union(via_up.union(via_down).union(via_left).union(via_right)));
        }
        result
    }

    /// The trails that go on over `direction`, which they can where the map
    /// has the height `height` there.
    fn climb(&self, direction: &Point, height: u8, trailhead: &Point, found_trails: &mut HashSet<u32>) -> (count:
        u16)
        requires
            self.rows <= MAX_SIDE,
            self.cols <= MAX_SIDE,
            1 <= height <= 9,
            on_a_map(*trailhead),
        ensures
            count == self.trails_via(direction.x as int, direction.y as int, height as nat) % 0x10000,
            final(found_trails)@ == old(found_trails)@.union(
                self.peaks_via(*trailhead, direction.x as int, direction.y as int, height as nat),
            ),
        decreases 10 - height, 1nat,
    {
        if let Some(found_height) = self.get(direction.x, direction.y) {
            if found_height == height {
                return self.find_paths_up(direction, height, trailhead, found_trails);
            }
        }
        assert(found_trails@ == old(found_trails)@.union(Set::<u32>::empty()));
        0
    }

    /// Reads a map. Every digit is a height, and the first carriage return
    /// tells how many columns a row has.
    pub fn from_str(input: &str) -> (result: Result<TrailMap, ()>)
        ensures
            result is Ok <==> readable(input@),
            result matches Ok(map) ==> {
                &&& map.wf()
                &&& map.rows == lines_of(input@).len()
                &&& first_at(input@, '\r', map.cols as int)
                &&& map.data@ == all_heights(lines_of(input@))
                &&& map.trailheads@ == all_trailheads(lines_of(input@))
            },
    {
        let text = chars_of(input);
        let lines = lines_of_chars(&text);
        let ghost all = views(lines@);
        let width = match first_index_of(&text, '\r') {
            None => {
                return Err(());
            },
            Some(width) => width,
        };
        if width > MAX_SIDE {
            proof {
                if exists|n: int| 0 <= n <= MAX_SIDE && first_at(text@, '\r', n) {
                    let n = choose|n: int| 0 <= n <= MAX_SIDE && first_at(text@, '\r', n);
                    assert(text@[n] != '\r');
                }
            }
            return Err(());
        }
        assert(first_at(text@, '\r', width as int));
        if lines.len() > MAX_SIDE {
            return Err(());
        }
        let mut data: Vec<u8> = Vec::new();
        let mut trailheads: Vec<Point> = Vec::new();
        let mut y: usize = 0;
        assert(all.take(0) == Seq::<Seq<char>>::empty());
        while y < lines.len()
            invariant
                y <= lines.len() <= MAX_SIDE,
                all == views(lines@),
                all == lines_of(input@),
                width <= MAX_SIDE,
                first_at(input@, '\r', width as int),
                forall|j: int| 0 <= j < y ==> (#[trigger] all[j]).len() <= MAX_SIDE,
                data@ == all_heights(all.take(y as int)),
                trailheads@ == all_trailheads(all.take(y as int)),
                forall|i: int| 0 <= i < trailheads.len() ==> on_a_map(#[trigger] trailheads[i]),
            decreases lines.len() - y,
        {
            let line = &lines[y];
            assert(all[y as int] == line@);
            if line.len() > MAX_SIDE {
                return Err(());
            }
            let ghost data_before = data@;
            let ghost heads_before = trailheads@;
            let mut x: usize = 0;
            assert(line@.take(0) == Seq::<char>::empty());
            while x < line.len()
                invariant
                    x <= line.len() <= MAX_SIDE,
                    y < MAX_SIDE,
                    data@ == data_before + line_heights(line@.take(x as int)),
                    trailheads@ == heads_before + line_trailheads(line@.take(x as int), y as int),
                    forall|i: int| 0 <= i < trailheads.len() ==> on_a_map(#[trigger] trailheads[i]),
                decreases line.len() - x,
            {
                let ch = char_at(line, x);
                proof {
                    assert(line@.take(x + 1).drop_last() == line@.take(x as int));
                    assert(line@.take(x + 1).last() == ch);
                }
                if let Some(height) = digit_of(ch) {
                    data.push(height);
                    if height == 0 {
                        trailheads.push(Point { x: x as i8, y: y as i8 });
                    }
                }
                assert(data@ == data_before + line_heights(line@.take(x + 1)));
                assert(trailheads@ == heads_before + line_trailheads(line@.take(x + 1), y as int));
                x += 1;
            }
            proof {
                assert(line@.take(x as int) == line@);
                assert(all.take(y + 1).drop_last() == all.take(y as int));
                assert(all.take(y + 1).last() == line@);
            }
            y += 1;
        }
        proof {
            assert(all.take(y as int) == all);
        }
        Ok(TrailMap { data, rows: lines.len(), cols: width, trailheads })
    }
}

/// The score of the map that `input` writes, as
/// `find_trails_and_calculate_score` counts it; nothing where the text
/// cannot be read as a map.
pub fn solve(input: &str) -> (result: Result<(usize, u16), ()>)
    ensures
        result is Ok <==> readable(input@),
        result matches Ok(score) ==> exists|map: TrailMap|
            {
                &&& map.wf()
                &&& map.rows == lines_of(input@).len()
                &&& first_at(input@, '\r', map.cols as int)
                &&& map.data@ == all_heights(lines_of(input@))
                &&& map.trailheads@ == all_trailheads(lines_of(input@))
                &&& score.0 == map.joined_pairs(map.trailheads.len() as nat).len()
                &&& score.1 == map.trail_count(map.trailheads.len() as nat) % 0x10000
            },
{
    match TrailMap::from_str(input) {
        Err(_) => Err(()),
        Ok(map) => Ok(map.find_trails_and_calculate_score()),
    }
}

} // verus!
