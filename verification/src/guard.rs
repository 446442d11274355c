//! The patrol of a guard through a lab: she walks straight ahead until an
//! obstruction makes her turn right, and either leaves the mapped area or
//! comes back to a place that she has crossed before in the same direction.
//!
//! Places are held in bytes. A straight walk is given up after `MAX_STEPS`
//! steps and a patrol after `MAX_ROUNDS` straight walks; both count as a
//! loop.

use crate::text::{char_at, chars_of, lines_of, lines_of_chars, views};
use std::collections::HashSet;
use vstd::prelude::*;

verus! {

broadcast use vstd::std_specs::hash::group_hash_axioms;

/// One of the four directions, by number.
pub type Direction = u8;

pub const NORTH: Direction = 0;

pub const EAST: Direction = 1;

pub const SOUTH: Direction = 2;

pub const WEST: Direction = 3;

/// The most steps of one straight walk.
pub const MAX_STEPS: u32 = 256;

/// The most straight walks of one patrol.
pub const MAX_ROUNDS: u32 = 1_048_580;

/// The longest line and the most lines of a map.
pub const MAX_SIDE: usize = 255;

/// A place of the lab: column `x` of row `y`.
#[derive(Clone, Copy, Debug)]
pub struct Point {
    pub x: u8,
    pub y: u8,
}

/// The guard: where she stands and where she looks.
#[derive(Clone, Copy, Debug)]
pub struct Guard {
    pub location: Point,
    pub direction: Direction,
}

/// How a walk ends.
#[derive(Clone, Copy, Debug)]
pub enum WalkOutcome {
    Obstructed,
    LeftMappedArea,
    InALoop,
}

/// The lab with its obstructions, and what the guard has crossed so far:
/// `visited` holds every place with the direction in which she entered it,
/// `path` every place once, in the order in which she first entered it.
pub struct Lab {
    pub obstructions: HashSet<u16>,
    pub width: u8,
    pub height: u8,
    pub guard: Guard,
    pub visited: HashSet<u32>,
    pub stepped: HashSet<u16>,
    pub path: Vec<Point>,
}

/// What a walk has reached: the guard and what she has crossed.
pub struct Walk {
    pub guard: Guard,
    pub visited: Set<u32>,
    pub stepped: Set<u16>,
    pub path: Seq<Point>,
}

/// The number of a place.
pub open spec fn point_key(p: Point) -> u16 {
    (p.y * 256 + p.x) as u16
}

/// The number of a place entered in a direction.
pub open spec fn visit_key(p: Point, direction: Direction) -> u32 {
    (point_key(p) * 4 + direction) as u32
}

/// The place next to `p` in `direction`. The numbers of rows and columns
/// wrap around, so that the place north of row 0 lies in row 255.
pub open spec fn moved(p: Point, direction: Direction) -> Point {
    if direction == NORTH {
        Point { x: p.x, y: if p.y == 0 { 255u8 } else { (p.y - 1) as u8 } }
    } else if direction == SOUTH {
        Point { x: p.x, y: if p.y == 255 { 0u8 } else { (p.y + 1) as u8 } }
    } else if direction == WEST {
        Point { x: if p.x == 0 { 255u8 } else { (p.x - 1) as u8 }, y: p.y }
    } else {
        Point { x: if p.x == 255 { 0u8 } else { (p.x + 1) as u8 }, y: p.y }
    }
}

/// Whether `p` lies outside a lab of this width and height.
pub open spec fn out_of_bounds(width: u8, height: u8, p: Point) -> bool {
    p.x >= width || p.y >= height
}

/// The walk after one step to `next`.
pub open spec fn stepped_to(walk: Walk, next: Point) -> Walk {
    Walk {
        guard: Guard { location: next, direction: walk.guard.direction },
        visited: walk.visited.insert(visit_key(next, walk.guard.direction)),
        stepped: walk.stepped.insert(point_key(next)),
        path: if walk.stepped.contains(point_key(next)) {
            walk.path
        } else {
            walk.path.push(next)
        },
    }
}

/// The walk after a turn to the right.
pub open spec fn turned(walk: Walk) -> Walk {
    Walk {
        guard: Guard {
            location: walk.guard.location,
            direction: ((walk.guard.direction + 1) % 4) as u8,
        },
        visited: walk.visited,
        stepped: walk.stepped,
        path: walk.path,
    }
}

/// A straight walk of at most `steps` steps: how it ends, and what it has
/// reached then.
pub open spec fn straight(obstructions: Set<u16>, width: u8, height: u8, walk: Walk, steps: nat) -> (
    WalkOutcome,
    Walk,
)
    decreases steps,
{
    let next = moved(walk.guard.location, walk.guard.direction);
    if steps == 0 {
        (WalkOutcome::InALoop, walk)
    } else if obstructions.contains(point_key(next)) {
        (WalkOutcome::Obstructed, walk)
    } else if out_of_bounds(width, height, next) {
        (WalkOutcome::LeftMappedArea, walk)
    } else if walk.visited.contains(visit_key(next, walk.guard.direction)) {
        (WalkOutcome::InALoop, walk)
    } else {
        straight(obstructions, width, height, stepped_to(walk, next), (steps - 1) as nat)
    }
}

/// A patrol of at most `rounds` straight walks, with a turn to the right
/// after each that an obstruction ends.
pub open spec fn patrol(obstructions: Set<u16>, width: u8, height: u8, walk: Walk, rounds: nat) -> (
    WalkOutcome,
    Walk,
)
    decreases rounds,
{
    if rounds == 0 {
        (WalkOutcome::InALoop, walk)
    } else {
        let ended = straight(obstructions, width, height, walk, MAX_STEPS as nat);
        if ended.0 is Obstructed {
            patrol(obstructions, width, height, turned(ended.1), (rounds - 1) as nat)
        } else {
            ended
        }
    }
}

/// The walk of a guard who has not moved yet.
pub open spec fn fresh_walk(guard: Guard) -> Walk {
    Walk { guard, visited: Set::empty(), stepped: Set::empty(), path: Seq::empty() }
}

/// How many of `candidates` make the guard walk in a loop when an
/// obstruction is put there.
pub open spec fn loop_count(
    obstructions: Set<u16>,
    width: u8,
    height: u8,
    guard: Guard,
    candidates: Seq<Point>,
) -> nat
    decreases candidates.len(),
{
    if candidates.len() == 0 {
        0
    } else {
        loop_count(obstructions, width, height, guard, candidates.drop_last()) + if patrol(
            obstructions.insert(point_key(candidates.last())),
            width,
            height,
            fresh_walk(guard),
            MAX_ROUNDS as nat,
        ).0 is InALoop {
            1nat
        } else {
            0nat
        }
    }
}

proof fn lemma_straight_path(obstructions: Set<u16>, width: u8, height: u8, walk: Walk, steps: nat)
    ensures
        straight(obstructions, width, height, walk, steps).1.path.len() <= walk.path.len() + steps,
        straight(obstructions, width, height, walk, steps).1.guard.direction == walk.guard.direction,
    decreases steps,
{
    let next = moved(walk.guard.location, walk.guard.direction);
    if steps > 0 && !obstructions.contains(point_key(next)) && !out_of_bounds(width, height, next)
        && !walk.visited.contains(visit_key(next, walk.guard.direction)) {
        lemma_straight_path(obstructions, width, height, stepped_to(walk, next), (steps - 1) as nat);
    }
}

/// A patrol crosses no more places than it has steps.
pub proof fn lemma_patrol_path(obstructions: Set<u16>, width: u8, height: u8, walk: Walk, rounds: nat)
    ensures
        patrol(obstructions, width, height, walk, rounds).1.path.len() <= walk.path.len() + rounds
            * MAX_STEPS,
    decreases rounds,
{
    if rounds > 0 {
        let ended = straight(obstructions, width, height, walk, MAX_STEPS as nat);
        lemma_straight_path(obstructions, width, height, walk, MAX_STEPS as nat);
        if ended.0 is Obstructed {
            lemma_patrol_path(obstructions, width, height, turned(ended.1), (rounds - 1) as nat);
        }
        assert(rounds * MAX_STEPS == (rounds - 1) * MAX_STEPS + MAX_STEPS) by (nonlinear_arith);
    }
}

impl Point {
    /// The place next to this one in `direction`.
    pub fn apply(&self, direction: Direction) -> (next: Point)
        requires
            direction < 4,
        ensures
            next == moved(*self, direction),
    {
        if direction == NORTH {
            Point { x: self.x, y: self.y.wrapping_sub(1) }
        } else if direction == SOUTH {
            Point { x: self.x, y: self.y.wrapping_add(1) }
        } else if direction == WEST {
            Point { x: self.x.wrapping_sub(1), y: self.y }
        } else {
            Point { x: self.x.wrapping_add(1), y: self.y }
        }
    }

    /// The number of the place.
    pub fn key(&self) -> (key: u16)
        ensures
            key == point_key(*self),
    {
        self.y as u16 * 256 + self.x as u16
    }
}

impl Guard {
    /// Puts the guard on `location`.
    pub fn move_to(&mut self, location: Point)
        ensures
            final(self).location == location,
            final(self).direction == old(self).direction,
    {
        self.location = location;
    }

    /// Turns the guard to the right.
    pub fn rotate(&mut self)
        requires
            old(self).direction < 4,
        ensures
            final(self).location == old(self).location,
            final(self).direction == (old(self).direction + 1) % 4,
    {
        self.direction = (self.direction + 1) % 4;
    }
}

impl Lab {
    /// What the guard has reached.
    pub open spec fn walk(&self) -> Walk {
        Walk { guard: self.guard, visited: self.visited@, stepped: self.stepped@, path: self.path@ }
    }

    /// Whether the guard has entered `location` in `direction` before.
    pub fn was_visited_before(&self, location: &Point, direction: &Direction) -> (before: bool)
        requires
            *direction < 4,
        ensures
            before == self.visited@.contains(visit_key(*location, *direction)),
    {
        let find = location.key() as u32 * 4 + *direction as u32;
        self.visited.contains(&find)
    }

    /// Whether `point` lies outside the lab.
    pub fn is_out_of_bounds(&self, point: &Point) -> (outside: bool)
        ensures
            outside == out_of_bounds(self.width, self.height, *point),
    {
        point.x >= self.width || point.y >= self.height
    }

    /// Walks straight ahead until an obstruction, the border of the lab or a
    /// place entered before in the same direction stops the guard.
    pub fn walk_straight(&mut self) -> (outcome: WalkOutcome)
        requires
            old(self).guard.direction < 4,
        ensures
            (outcome, final(self).walk()) == straight(
                old(self).obstructions@,
                old(self).width,
                old(self).height,
                old(self).walk(),
                MAX_STEPS as nat,
            ),
            final(self).obstructions@ == old(self).obstructions@,
            final(self).width == old(self).width,
            final(self).height == old(self).height,
            final(self).guard.direction == old(self).guard.direction,
    {
        let mut steps_left: u32 = MAX_STEPS;
        while steps_left > 0
            invariant
                self.guard.direction < 4,
                self.guard.direction == old(self).guard.direction,
                self.obstructions@ == old(self).obstructions@,
                self.width == old(self).width,
                self.height == old(self).height,
                straight(
                    self.obstructions@,
                    self.width,
                    self.height,
                    self.walk(),
                    steps_left as nat,
                ) == straight(
                    old(self).obstructions@,
                    old(self).width,
                    old(self).height,
                    old(self).walk(),
                    MAX_STEPS as nat,
                ),
            decreases steps_left,
        {
            let next_location = self.guard.location.apply(self.guard.direction);
            let direction = self.guard.direction;
            let place = next_location.key();
            if self.obstructions.contains(&place) {
                return WalkOutcome::Obstructed;
            } else if self.is_out_of_bounds(&next_location) {
                return WalkOutcome::LeftMappedArea;
            } else if self.was_visited_before(&next_location, &direction) {
                return WalkOutcome::InALoop;
            }
            let ghost before = self.walk();
            self.guard.move_to(next_location);
            self.visited.insert(place as u32 * 4 + direction as u32);
            if self.stepped.insert(place) {
                self.path.push(next_location);
            }
            assert(self.walk() == stepped_to(before, next_location));
            steps_left -= 1;
        }
        WalkOutcome::InALoop
    }

    /// Lets the guard patrol: straight walks, with a turn to the right after
    /// each that an obstruction ends, until she leaves or walks in a loop.
    pub fn do_guard_walking(&mut self) -> (outcome: WalkOutcome)
        requires
            old(self).guard.direction < 4,
        ensures
            (outcome, final(self).walk()) == patrol(
                old(self).obstructions@,
                old(self).width,
                old(self).height,
                old(self).walk(),
                MAX_ROUNDS as nat,
            ),
            !(outcome is Obstructed),
            final(self).obstructions@ == old(self).obstructions@,
            final(self).width == old(self).width,
            final(self).height == old(self).height,
    {
        let mut rounds_left: u32 = MAX_ROUNDS;
        while rounds_left > 0
            invariant
                self.guard.direction < 4,
                self.obstructions@ == old(self).obstructions@,
                self.width == old(self).width,
                self.height == old(self).height,
                patrol(self.obstructions@, self.width, self.height, self.walk(), rounds_left as nat)
                    == patrol(
                    old(self).obstructions@,
                    old(self).width,
                    old(self).height,
                    old(self).walk(),
                    MAX_ROUNDS as nat,
                ),
            decreases rounds_left,
        {
            let outcome = self.walk_straight();
            match outcome {
                WalkOutcome::Obstructed => {
                    let ghost before = self.walk();
                    self.guard.rotate();
                    assert(self.walk() == turned(before));
                },
                _ => {
                    return outcome;
                },
            }
            rounds_left -= 1;
        }
        WalkOutcome::InALoop
    }
}

/// Whether the lines can be read as a lab: there are no more than
/// `MAX_SIDE` of them, none longer than `MAX_SIDE` characters.
pub open spec fn readable(lines: Seq<Seq<char>>) -> bool {
    &&& lines.len() <= MAX_SIDE
    &&& forall|y: int| 0 <= y < lines.len() ==> (#[trigger] lines[y]).len() <= MAX_SIDE
}

/// Whether the place of number `k` comes before column `x` of row `y` in
/// reading order and holds the character `c`.
pub open spec fn holds_before(lines: Seq<Seq<char>>, k: u16, c: char, x: int, y: int) -> bool {
    let kx = (k % 256) as int;
    let ky = (k / 256) as int;
    &&& ky < lines.len()
    &&& kx < lines[ky].len()
    &&& lines[ky][kx] == c
    &&& (ky < y || (ky == y && kx < x))
}

/// The numbers of the places before column `x` of row `y` that hold an
/// obstruction, `#`.
pub open spec fn obstructions_before(lines: Seq<Seq<char>>, x: int, y: int) -> Set<u16> {
    Set::new(|k: u16| holds_before(lines, k, '#', x, y))
}

/// The numbers of the places that hold an obstruction.
pub open spec fn obstruction_keys(lines: Seq<Seq<char>>) -> Set<u16> {
    obstructions_before(lines, 0, lines.len() as int)
}

/// Whether the guard starts at `start` where only the places before column
/// `x` of row `y` are read: `start` is the last of them that holds `^`, or
/// the place (255, 255) where none does.
pub open spec fn starts_before(lines: Seq<Seq<char>>, start: Point, x: int, y: int) -> bool {
    ||| {
        &&& start == Point { x: 255, y: 255 }
        &&& forall|k: u16| !holds_before(lines, k, '^', x, y)
    }
    ||| {
        &&& holds_before(lines, point_key(start), '^', x, y)
        &&& forall|k: u16| #[trigger] holds_before(lines, k, '^', x, y) ==> k <= point_key(start)
    }
}

/// Whether the guard starts at `start`.
pub open spec fn marks_start(lines: Seq<Seq<char>>, start: Point) -> bool {
    starts_before(lines, start, 0, lines.len() as int)
}

/// The width of the lab: the length of its last line.
pub open spec fn width_of(lines: Seq<Seq<char>>) -> u8 {
    if lines.len() == 0 {
        0
    } else {
        lines.last().len() as u8
    }
}

/// A copy of `points`.
fn copy_points(points: &Vec<Point>) -> (copy: Vec<Point>)
    ensures
        copy@ == points@,
{
    let mut copy: Vec<Point> = Vec::new();
    let mut i: usize = 0;
    while i < points.len()
        invariant
            i <= points.len(),
            copy@ == points@.take(i as int),
        decreases points.len() - i,
    {
        copy.push(points[i]);
        i += 1;
    }
    assert(points@.take(i as int) == points@);
    copy
}

impl Lab {
    /// Reads a lab: `#` is an obstruction, `^` the guard, who looks north.
    pub fn from_str(input: &str) -> (result: Result<Lab, ()>)
        ensures
            result is Ok <==> readable(lines_of(input@)),
            result matches Ok(lab) ==> {
                &&& lab.obstructions@ == obstruction_keys(lines_of(input@))
                &&& lab.width == width_of(lines_of(input@))
                &&& lab.height == lines_of(input@).len()
                &&& marks_start(lines_of(input@), lab.guard.location)
                &&& lab.guard.direction == NORTH
                &&& lab.walk() == fresh_walk(lab.guard)
            },
    {
        let text = chars_of(input);
        let lines = lines_of_chars(&text);
        let ghost all = views(lines@);
        if lines.len() > MAX_SIDE {
            return Err(());
        }
        let mut width: u8 = 0;
        let mut obstructions: HashSet<u16> = HashSet::new();
        let mut y: u8 = 0;
        let mut guard = Guard { location: Point { x: 255, y: 255 }, direction: NORTH };
        assert(obstructions@ == obstructions_before(all, 0, 0));
        while (y as usize) < lines.len()
            invariant
                y <= lines.len() <= MAX_SIDE,
                all == views(lines@),
                all == lines_of(input@),
                forall|j: int| 0 <= j < y ==> (#[trigger] all[j]).len() <= MAX_SIDE,
                obstructions@ == obstructions_before(all, 0, y as int),
                starts_before(all, guard.location, 0, y as int),
                guard.direction == NORTH,
                width == width_of(all.take(y as int)),
            decreases lines.len() - y,
        {
            let line = &lines[y as usize];
            assert(all[y as int] == line@);
            if line.len() > MAX_SIDE {
                return Err(());
            }
            width = line.len() as u8;
            let mut x: u8 = 0;
            while (x as usize) < line.len()
                invariant
                    x <= line.len() <= MAX_SIDE,
                    y < lines.len() <= MAX_SIDE,
                    all == views(lines@),
                    line == lines[y as int],
                    obstructions@ == obstructions_before(all, x as int, y as int),
                    starts_before(all, guard.location, x as int, y as int),
                    guard.direction == NORTH,
                decreases line.len() - x,
            {
                let c = char_at(line, x as usize);
                let ghost here = Point { x, y };
                let ghost key = point_key(here);
                let ghost before_set = obstructions@;
                let ghost before_start = guard.location;
                assert(all[y as int][x as int] == c);
                assert(key % 256 == x && key / 256 == y);
                if c == '#' {
                    obstructions.insert(y as u16 * 256 + x as u16);
                } else if c == '^' {
                    guard = Guard { location: Point { x, y }, direction: NORTH };
                }
                proof {
                    let next_x: int = x + 1;
                    assert forall|k: u16|
                        holds_before(all, k, '#', next_x, y as int) <==> (holds_before(
                            all,
                            k,
                            '#',
                            x as int,
                            y as int,
                        ) || (k == key && c == '#')) by {
                        if k % 256 == x && k / 256 == y {
                            assert(k == key);
                        }
                    }
                    assert(obstructions@ =~= obstructions_before(all, next_x, y as int));
                    assert forall|k: u16|
                        holds_before(all, k, '^', next_x, y as int) <==> (holds_before(
                            all,
                            k,
                            '^',
                            x as int,
                            y as int,
                        ) || (k == key && c == '^')) by {
                        if k % 256 == x && k / 256 == y {
                            assert(k == key);
                        }
                    }
                    if c == '^' {
                        assert(holds_before(all, key, '^', next_x, y as int));
                        assert forall|k: u16| #[trigger]
                            holds_before(all, k, '^', next_x, y as int) implies k <= key by {
                            if k != key {
                                assert(holds_before(all, k, '^', x as int, y as int));
                                assert(k == (k / 256) * 256 + k % 256);
                            }
                        }
                        assert(starts_before(all, guard.location, next_x, y as int));
                    } else {
                        let was = point_key(before_start);
                        if holds_before(all, was, '^', x as int, y as int) && (forall|k: u16| #[trigger]
                            holds_before(all, k, '^', x as int, y as int) ==> k <= was) {
                            assert(holds_before(all, was, '^', next_x, y as int));
                            assert forall|k: u16| #[trigger]
                                holds_before(all, k, '^', next_x, y as int) implies k <= was by {
                                assert(holds_before(all, k, '^', x as int, y as int));
                            }
                        } else {
                            assert forall|k: u16| !holds_before(all, k, '^', next_x, y as int) by {
                                assert(!holds_before(all, k, '^', x as int, y as int));
                            }
                        }
                        assert(starts_before(all, guard.location, next_x, y as int));
                    }
                }
                x += 1;
            }
            proof {
                let next_y: int = y + 1;
                let line_end: int = line.len() as int;
                assert forall|k: u16|
                    holds_before(all, k, '#', line_end, y as int) <==> holds_before(
                        all,
                        k,
                        '#',
                        0,
                        next_y,
                    ) by {}
                assert(obstructions@ =~= obstructions_before(all, 0, next_y));
                assert forall|k: u16|
                    holds_before(all, k, '^', line_end, y as int) <==> holds_before(
                        all,
                        k,
                        '^',
                        0,
                        next_y,
                    ) by {}
                assert(all.take(y + 1).last() == line@);
                let was = point_key(guard.location);
                if holds_before(all, was, '^', line_end, y as int) && (forall|k: u16| #[trigger]
                    holds_before(all, k, '^', line_end, y as int) ==> k <= was) {
                    assert(holds_before(all, was, '^', 0, next_y));
                    assert forall|k: u16| #[trigger]
                        holds_before(all, k, '^', 0, next_y) implies k <= was by {
                        assert(holds_before(all, k, '^', line_end, y as int));
                    }
                } else {
                    assert forall|k: u16| !holds_before(all, k, '^', 0, next_y) by {
                        assert(!holds_before(all, k, '^', line_end, y as int));
                    }
                }
                assert(starts_before(all, guard.location, 0, next_y));
            }
            y += 1;
        }
        proof {
            assert(all.take(y as int) == all);
        }
        Ok(
            Lab {
                obstructions,
                width,
                height: y,
                guard,
                visited: HashSet::new(),
                stepped: HashSet::new(),
                path: Vec::new(),
            },
        )
    }
}

/// The number of places that the guard enters on her patrol, and one more
/// for the place where she starts, whether or not she comes back to it; with it the places that she crosses, in
/// the order in which she first enters them.
pub fn solve_part1(map: &mut Lab) -> (result: (usize, Vec<Point>))
    requires
        old(map).guard.direction < 4,
        old(map).path.len() == 0,
    ensures
        final(map).walk() == patrol(
            old(map).obstructions@,
            old(map).width,
            old(map).height,
            old(map).walk(),
            MAX_ROUNDS as nat,
        ).1,
        final(map).obstructions@ == old(map).obstructions@,
        final(map).width == old(map).width,
        final(map).height == old(map).height,
        result.1@ == final(map).path@,
        result.0 == final(map).path.len() + 1,
{
    proof {
        lemma_patrol_path(map.obstructions@, map.width, map.height, map.walk(), MAX_ROUNDS as nat);
    }
    let _ = map.do_guard_walking();
    let unique = copy_points(&map.path);
    (unique.len() + 1, unique)
}

/// How many of the places in `visited` make the guard, who starts as
/// `start`, walk in a loop when an obstruction is put there.
pub fn solve_part2(map: &mut Lab, start: Guard, visited: Vec<Point>) -> (part2: usize)
    requires
        start.direction < 4,
    ensures
        part2 == loop_count(
            old(map).obstructions@,
            old(map).width,
            old(map).height,
            start,
            visited@,
        ),
        final(map).obstructions@ == old(map).obstructions@,
        final(map).width == old(map).width,
        final(map).height == old(map).height,
{
    let ghost obstructions = map.obstructions@;
    let mut part2: usize = 0;
    let mut i: usize = 0;
    assert(visited@.take(0) == Seq::<Point>::empty());
    while i < visited.len()
        invariant
            i <= visited.len(),
            start.direction < 4,
            map.obstructions@ == obstructions,
            obstructions == old(map).obstructions@,
            map.width == old(map).width,
            map.height == old(map).height,
            part2 <= i,
            part2 == loop_count(obstructions, map.width, map.height, start, visited@.take(i as int)),
        decreases visited.len() - i,
    {
        let new_obstruction = visited[i];
        let key = new_obstruction.key();
        proof {
            assert(visited@.take(i + 1).drop_last() == visited@.take(i as int));
            assert(visited@.take(i + 1).last() == new_obstruction);
        }
        let added = map.obstructions.insert(key);
        map.guard = start;
        map.visited = HashSet::new();
        map.stepped = HashSet::new();
        map.path = Vec::new();
        assert(map.walk() == fresh_walk(start));
        match map.do_guard_walking() {
            WalkOutcome::InALoop => {
                part2 += 1;
            },
            _ => {},
        }
        if added {
            map.obstructions.remove(&key);
        }
        assert(map.obstructions@ =~= obstructions);
        i += 1;
    }
    assert(visited@.take(i as int) == visited@);
    part2
}

/// The two counts for a lab in which the guard starts at `start`: the
/// places that she crosses on her patrol and one more, and the places among
/// them where a new obstruction makes her walk in a loop.
pub open spec fn counts_from(lines: Seq<Seq<char>>, start: Point) -> (nat, nat) {
    let guard = Guard { location: start, direction: NORTH };
    let patrolled = patrol(
        obstruction_keys(lines),
        width_of(lines),
        lines.len() as u8,
        fresh_walk(guard),
        MAX_ROUNDS as nat,
    ).1;
    (
        patrolled.path.len() + 1,
        loop_count(obstruction_keys(lines), width_of(lines), lines.len() as u8, guard, patrolled.path),
    )
}

/// The two counts for the lab that `input` writes, as `counts_from` gives
/// them for the place where the guard starts. Nothing where the text cannot
/// be read as a lab.
pub fn solve(input: &str) -> (result: Result<(usize, usize), ()>)
    ensures
        result is Ok <==> readable(lines_of(input@)),
        result matches Ok(counts) ==> exists|start: Point|
            {
                &&& #[trigger] marks_start(lines_of(input@), start)
                &&& counts.0 == counts_from(lines_of(input@), start).0
                &&& counts.1 == counts_from(lines_of(input@), start).1
            },
{
    let mut map = match Lab::from_str(input) {
        Err(_) => {
            return Err(());
        },
        Ok(map) => map,
    };
    let start = map.guard;
    let (part1, visited) = solve_part1(&mut map);
    let part2 = solve_part2(&mut map, start, visited);
    proof {
        assert(start == Guard { location: start.location, direction: NORTH });
        assert(marks_start(lines_of(input@), start.location));
    }
    Ok((part1, part2))
}

} // verus!
