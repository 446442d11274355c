//! A race over a track between walls, and the cheats that save time: for
//! a while a racer may pass through walls, from one place of the track to
//! another.

use crate::keypad::layout::{
    connects, holds_button, is_shortest, lemma_walk_ends_on_button, Cell,
};
use crate::keypad::routes::cell_at;
use crate::mazes::{cells_of, find_route, lemma_cell_count_bound, places, places_of};
use crate::text::{lines, lines_of, views};
use std::collections::HashMap;
use vstd::prelude::*;

verus! {

broadcast use vstd::std_specs::hash::group_hash_axioms;

/// The largest number of lines of a map, and of characters in a line.
pub const MAX_SIDE: usize = 32767;

/// A place of the map, or beside it.
#[derive(Clone, Copy, Debug, PartialEq, Eq)]
pub struct Point {
    pub x: i16,
    pub y: i16,
}

/// A map of a race: a square of as many rows and columns as the text has
/// lines, in which `#` is a wall, and the places where the race starts
/// and ends.
#[derive(Debug)]
pub struct RaceMap {
    pub grid: Vec<Vec<char>>,
    pub width: usize,
    pub height: usize,
    pub start: Point,
    pub end: Point,
}

/// The place of the last `c` among the first `y` lines and the first `x`
/// characters of the line after them; the first place of the map where
/// there is none.
pub open spec fn last_mark(all: Seq<Seq<char>>, c: char, y: nat, x: nat) -> Point
    decreases y, x,
{
    if x > 0 {
        if all[y as int][x - 1] == c {
            Point { x: (x - 1) as i16, y: y as i16 }
        } else {
            last_mark(all, c, y, (x - 1) as nat)
        }
    } else if y > 0 {
        last_mark(all, c, (y - 1) as nat, all[y - 1].len())
    } else {
        Point { x: 0, y: 0 }
    }
}

/// Whether the lines can be a map: there are no more than `MAX_SIDE` of
/// them, and none is longer than that.
pub open spec fn is_map(all: Seq<Seq<char>>) -> bool {
    all.len() <= MAX_SIDE && forall|y: int| 0 <= y < all.len() ==> (#[trigger] all[y]).len() <= MAX_SIDE
}

/// What stands at a place of the square: a wall where the line has one,
/// and nothing else.
pub open spec fn square_at(all: Seq<Seq<char>>, x: int, y: int) -> char {
    if x < all[y].len() && all[y][x] == '#' {
        '#'
    } else {
        '.'
    }
}

/// The square of the lines.
pub open spec fn square_of(all: Seq<Seq<char>>) -> Seq<Seq<char>> {
    Seq::new(all.len(), |y: int| Seq::new(all.len(), |x: int| square_at(all, x, y)))
}

/// The place of a point.
pub open spec fn cell_of(p: Point) -> Cell {
    Cell { x: p.x as int, y: p.y as int }
}

/// The places of the points.
pub open spec fn cells(points: Seq<Point>) -> Seq<Cell> {
    Seq::new(points.len(), |i: int| cell_of(points[i]))
}

/// The rows with the place (`x`, `y`) free of a wall, where it is one of
/// their places.
pub open spec fn opened(rows: Seq<Seq<char>>, x: int, y: int) -> Seq<Seq<char>> {
    if 0 <= y < rows.len() && 0 <= x < rows[y].len() {
        rows.update(y, rows[y].update(x, '.'))
    } else {
        rows
    }
}

/// Whether the points are the places of a shortest way from the start to
/// the end between the walls of the rows; the start itself may be a wall.
pub open spec fn is_track_of(rows: Seq<Seq<char>>, start: Point, end: Point, path: Seq<Point>) -> bool {
    exists|route: Seq<char>| #[trigger]
        is_shortest(opened(rows, start.x as int, start.y as int), cell_of(start), cell_of(end), route)
            && cells(path) == places(cell_of(start), route)
}

impl RaceMap {
    /// Whether the map is a square of no more than `MAX_SIDE` rows.
    pub open spec fn wf(&self) -> bool {
        &&& self.height <= MAX_SIDE
        &&& self.width == self.height
        &&& self.grid.len() == self.height
        &&& forall|y: int| 0 <= y < self.grid.len() ==> (#[trigger] self.grid[y]).len() == self.width
    }

    /// The rows of the map.
    pub open spec fn rows(&self) -> Seq<Seq<char>> {
        views(self.grid@)
    }

    /// Whether the point lies on the map.
    pub open spec fn on_map(&self, p: Point) -> bool {
        0 <= p.x < self.width && 0 <= p.y < self.height
    }

    /// Whether a route leads from the start to the end between the walls;
    /// the start itself may be a wall.
    pub open spec fn leads(&self, route: Seq<char>) -> bool {
        connects(
            opened(self.rows(), self.start.x as int, self.start.y as int),
            cell_of(self.start),
            cell_of(self.end),
            route,
        )
    }

    /// Whether the points are the places of a shortest way from the start
    /// to the end.
    pub open spec fn is_track(&self, path: Seq<Point>) -> bool {
        is_track_of(self.rows(), self.start, self.end, path)
    }

    /// The map that the text draws; nothing where it has too many lines or
    /// too long a line.
    pub fn parse(input: &str) -> (result: Option<RaceMap>)
        ensures
            result is Some <==> is_map(lines_of(input@)),
            result matches Some(map) ==> {
                &&& map.wf()
                &&& map.height == lines_of(input@).len()
                &&& map.rows() == square_of(lines_of(input@))
                &&& map.start == last_mark(lines_of(input@), 'S', lines_of(input@).len(), 0)
                &&& map.end == last_mark(lines_of(input@), 'E', lines_of(input@).len(), 0)
            },
    {
        let all = lines(input);
        let ghost text = views(all@);
        let side = all.len();
        if side > MAX_SIDE {
            return None;
        }
        let mut grid: Vec<Vec<char>> = Vec::new();
        let mut start = Point { x: 0, y: 0 };
        let mut end = Point { x: 0, y: 0 };
        let mut y: usize = 0;
        while y < side
            invariant
                y <= side,
                side == all.len(),
                side <= MAX_SIDE,
                text == views(all@),
                text == lines_of(input@),
                grid.len() == y,
                forall|v: int| 0 <= v < y ==> (#[trigger] text[v]).len() <= MAX_SIDE,
                forall|v: int| 0 <= v < y ==> (#[trigger] grid[v])@ == square_of(text)[v],
                start == last_mark(text, 'S', y as nat, 0),
                end == last_mark(text, 'E', y as nat, 0),
            decreases side - y,
        {
            let line = &all[y];
            assert(text[y as int] == line@);
            if line.len() > MAX_SIDE {
                return None;
            }
            let mut x: usize = 0;
            while x < line.len()
                invariant
                    x <= line.len(),
                    y < side,
                    side <= MAX_SIDE,
                    line.len() <= MAX_SIDE,
                    text[y as int] == line@,
                    start == last_mark(text, 'S', y as nat, x as nat),
                    end == last_mark(text, 'E', y as nat, x as nat),
                decreases line.len() - x,
            {
                let c = line[x];
                if c == 'S' {
                    start = Point { x: x as i16, y: y as i16 };
                } else if c == 'E' {
                    end = Point { x: x as i16, y: y as i16 };
                }
                x += 1;
            }
            let mut row: Vec<char> = Vec::new();
            let mut u: usize = 0;
            while u < side
                invariant
                    u <= side,
                    y < side,
                    text[y as int] == line@,
                    row.len() == u,
                    forall|t: int| 0 <= t < u ==> #[trigger] row[t] == square_at(text, t, y as int),
                decreases side - u,
            {
                if u < line.len() && line[u] == '#' {
                    row.push('#');
                } else {
                    row.push('.');
                }
                u += 1;
            }
            assert(row@ =~= square_of(text)[y as int]);
            grid.push(row);
            y += 1;
        }
        let map = RaceMap { grid, width: side, height: side, start, end };
        proof {
            assert(map.rows() =~= square_of(text));
        }
        Some(map)
    }

    /// Whether the place is free of a wall; nothing for a point beside the
    /// map.
    pub fn is_safe(&self, p: &Point) -> (safe: Option<bool>)
        requires
            self.wf(),
        ensures
            safe is Some <==> self.on_map(*p),
            safe matches Some(free) ==> free == (self.rows()[p.y as int][p.x as int] != '#'),
    {
        if p.x > -1 && p.y > -1 && (p.x as usize) < self.width && (p.y as usize) < self.height {
            assert(self.rows()[p.y as int] == self.grid[p.y as int]@);
            Some(self.grid[p.y as usize][p.x as usize] != '#')
        } else {
            None
        }
    }

    /// The rows of the map with the start free of a wall.
    fn open_rows(&self) -> (rows: Vec<Vec<char>>)
        requires
            self.wf(),
        ensures
            views(rows@) == opened(self.rows(), self.start.x as int, self.start.y as int),
    {
        let mut rows: Vec<Vec<char>> = Vec::new();
        let mut y: usize = 0;
        while y < self.grid.len()
            invariant
                self.wf(),
                y <= self.grid.len(),
                rows.len() == y,
                forall|v: int| 0 <= v < y ==> (#[trigger] rows[v])@ == self.grid[v]@,
            decreases self.grid.len() - y,
        {
            let row = crate::text::copy_range(&self.grid[y], 0, self.grid[y].len());
            assert(row@ =~= self.grid[y as int]@);
            rows.push(row);
            y += 1;
        }
        assert(views(rows@) =~= self.rows());
        if self.start.x >= 0 && self.start.y >= 0 && (self.start.x as usize) < self.width && (
        self.start.y as usize) < self.height {
            let ghost before = rows@;
            rows[self.start.y as usize][self.start.x as usize] = '.';
            proof {
                let wanted = opened(self.rows(), self.start.x as int, self.start.y as int);
                assert forall|v: int| 0 <= v < rows.len() implies #[trigger] views(rows@)[v]
                    == wanted[v] by {
                    assert(self.rows()[v] == before[v]@);
                    assert(views(rows@)[v] == rows[v]@);
                }
                assert(views(rows@) =~= wanted);
            }
        }
        rows
    }

    /// The places of a shortest way from the start to the end between the
    /// walls; nothing where there is no way, or where the start lies
    /// beside the map.
    pub fn dijkstra(&self) -> (found: Option<Vec<Point>>)
        requires
            self.wf(),
        ensures
            match found {
                Some(path) => self.on_map(self.start) && self.is_track(path@),
                None => !self.on_map(self.start) || forall|route: Seq<char>| !self.leads(route),
            },
    {
        let ghost rows = opened(self.rows(), self.start.x as int, self.start.y as int);
        if self.start.x < 0 || self.start.y < 0 || self.start.x as usize >= self.width
            || self.start.y as usize >= self.height {
            return None;
        }
        if self.end.x < 0 || self.end.y < 0 {
            proof {
                assert forall|route: Seq<char>| !self.leads(route) by {
                    if self.leads(route) {
                        lemma_walk_ends_on_button(rows, cell_of(self.start), route);
                    }
                }
            }
            return None;
        }
        let open = self.open_rows();
        proof {
            lemma_cell_count_bound(rows, 32767);
            assert(rows.len() * 32767 <= 32767 * 32767) by (nonlinear_arith)
                requires
                    rows.len() <= 32767,
            ;
        }
        let sx = self.start.x as usize;
        let sy = self.start.y as usize;
        assert(cell_at(sx, sy) == cell_of(self.start));
        assert(cell_at(self.end.x as usize, self.end.y as usize) == cell_of(self.end));
        let route = match find_route(&open, sx, sy, self.end.x as usize, self.end.y as usize) {
            None => {
                return None;
            },
            Some(route) => route,
        };
        let passed = places_of(&open, sx, sy, &route);
        let mut path: Vec<Point> = Vec::new();
        let mut i: usize = 0;
        while i < passed.len()
            invariant
                i <= passed.len(),
                self.wf(),
                views(open@) == rows,
                rows == opened(self.rows(), self.start.x as int, self.start.y as int),
                path.len() == i,
                forall|j: int|
                    0 <= j < passed.len() ==> holds_button(
                        rows,
                        cell_at((#[trigger] passed[j]).0, passed[j].1),
                    ),
                forall|j: int| 0 <= j < i ==> cell_of(#[trigger] path[j]) == cell_at(passed[j].0, passed[j].1),
            decreases passed.len() - i,
        {
            let (x, y) = passed[i];
            proof {
                assert(holds_button(rows, cell_at(passed[i as int].0, passed[i as int].1)));
                assert(self.rows()[y as int] == self.grid[y as int]@);
            }
            path.push(Point { x: x as i16, y: y as i16 });
            i += 1;
        }
        proof {
            assert(cells(path@) =~= cells_of(passed@));
            assert(is_shortest(rows, cell_of(self.start), cell_of(self.end), route@));
        }
        Some(path)
    }
}

/// The number that stands for a point in a map of points.
pub open spec fn key_of(x: int, y: int) -> u32 {
    ((x + 32768) * 65536 + (y + 32768)) as u32
}

/// The place of the last of the first `n` points of the track that `k`
/// stands for.
pub open spec fn last_index(path: Seq<Point>, k: u32, n: nat) -> Option<usize>
    decreases n,
{
    if n == 0 {
        None
    } else if key_of(path[n - 1].x as int, path[n - 1].y as int) == k {
        Some((n - 1) as usize)
    } else {
        last_index(path, k, (n - 1) as nat)
    }
}

/// Whether the point at `i` is the last of the track at its place.
pub open spec fn is_entry(path: Seq<Point>, i: int) -> bool {
    last_index(path, key_of(path[i].x as int, path[i].y as int), path.len()) == Some(i as usize)
}

/// How many of the first `n` points of the track are the last at their
/// place.
pub open spec fn entries(path: Seq<Point>, n: nat) -> nat
    decreases n,
{
    if n == 0 {
        0
    } else {
        entries(path, (n - 1) as nat) + if is_entry(path, n - 1) {
            1nat
        } else {
            0nat
        }
    }
}

/// A track: its points from the start to the end, and for each place the
/// time at which the track passes it last.
pub struct Racetrack {
    pub path: Vec<Point>,
    pub times: HashMap<u32, usize>,
}

impl Racetrack {
    /// Whether the times are those of the path.
    pub open spec fn wf(&self) -> bool {
        forall|k: u32|
            (#[trigger] self.times@.contains_key(k) <==> last_index(
                self.path@,
                k,
                self.path@.len(),
            ) is Some) && (self.times@.contains_key(k) ==> Some(self.times@[k]) == last_index(
                self.path@,
                k,
                self.path@.len(),
            ))
    }

    /// The time at which the track passes a place last; nothing for a
    /// place that it does not pass.
    pub open spec fn time_at(&self, x: int, y: int) -> Option<usize> {
        if -32768 <= x <= 32767 && -32768 <= y <= 32767 {
            last_index(self.path@, key_of(x, y), self.path@.len())
        } else {
            None
        }
    }

    /// The track of the points.
    pub fn new(path: Vec<Point>) -> (track: Racetrack)
        ensures
            track.wf(),
            track.path@ == path@,
    {
        let mut times: HashMap<u32, usize> = HashMap::new();
        let mut i: usize = 0;
        while i < path.len()
            invariant
                i <= path.len(),
                forall|k: u32|
                    (#[trigger] times@.contains_key(k) <==> last_index(path@, k, i as nat) is Some) && (
                    times@.contains_key(k) ==> Some(times@[k]) == last_index(path@, k, i as nat)),
            decreases path.len() - i,
        {
            let key = (path[i].x as i32 + 32768) as u32 * 65536 + (path[i].y as i32 + 32768) as u32;
            assert(key == key_of(path[i as int].x as int, path[i as int].y as int));
            times.insert(key, i);
            i += 1;
        }
        Racetrack { path, times }
    }

    /// The time at which the track passes a place last.
    pub fn get(&self, x: i32, y: i32) -> (time: Option<usize>)
        requires
            self.wf(),
        ensures
            time == self.time_at(x as int, y as int),
    {
        if x < -32768 || x > 32767 || y < -32768 || y > 32767 {
            return None;
        }
        let key = (x + 32768) as u32 * 65536 + (y + 32768) as u32;
        assert(key == key_of(x as int, y as int));
        match self.times.get(&key) {
            None => None,
            Some(time) => Some(*time),
        }
    }

    /// How many places the track passes.
    pub fn len(&self) -> (count: usize)
        requires
            self.wf(),
        ensures
            count == entries(self.path@, self.path@.len()),
    {
        let mut count: usize = 0;
        let mut i: usize = 0;
        while i < self.path.len()
            invariant
                self.wf(),
                i <= self.path.len(),
                count <= i,
                count == entries(self.path@, i as nat),
            decreases self.path.len() - i,
        {
            if self.is_last(i) {
                count += 1;
            }
            i += 1;
        }
        count
    }

    /// Whether the point at `i` is the last of the track at its place.
    fn is_last(&self, i: usize) -> (last: bool)
        requires
            self.wf(),
            i < self.path.len(),
        ensures
            last == is_entry(self.path@, i as int),
    {
        let p = self.path[i];
        match self.get(p.x as i32, p.y as i32) {
            None => false,
            Some(time) => time == i,
        }
    }
}

/// A place to which a cheat leads, and the time that the cheat takes.
#[derive(Clone, Copy, Debug, PartialEq, Eq)]
pub struct Cheat {
    pub x: i32,
    pub y: i32,
    pub time: usize,
}

/// The cheats of two steps from a place: two steps to the left, to the
/// right, up and down.
pub open spec fn two_steps(x: int, y: int) -> Seq<Cheat> {
    seq![
        Cheat { x: (x - 2) as i32, y: y as i32, time: 2 },
        Cheat { x: (x + 2) as i32, y: y as i32, time: 2 },
        Cheat { x: x as i32, y: (y - 2) as i32, time: 2 },
        Cheat { x: x as i32, y: (y + 2) as i32, time: 2 },
    ]
}

/// Whether a cheat of `i` steps one way and `j` steps across counts:
/// cheats of one step do not, nor those of one step each way.
pub open spec fn counts(i: int, j: int) -> bool {
    i + j > 1 && !(i == 1 && j == 1)
}

/// The four cheats of `i` steps one way and `j` steps across from a place,
/// where they count.
pub open spec fn four_ways(x: int, y: int, i: int, j: int) -> Seq<Cheat> {
    if counts(i, j) {
        seq![
            Cheat { x: (x - i) as i32, y: (y - j) as i32, time: (i + j) as usize },
            Cheat { x: (x + j) as i32, y: (y - i) as i32, time: (i + j) as usize },
            Cheat { x: (x + i) as i32, y: (y + j) as i32, time: (i + j) as usize },
            Cheat { x: (x - j) as i32, y: (y + i) as i32, time: (i + j) as usize },
        ]
    } else {
        Seq::empty()
    }
}

/// The cheats of `i` steps one way and fewer than `n` steps across.
pub open spec fn cheats_across(x: int, y: int, i: int, n: nat) -> Seq<Cheat>
    decreases n,
{
    if n == 0 {
        Seq::empty()
    } else {
        cheats_across(x, y, i, (n - 1) as nat) + four_ways(x, y, i, n - 1)
    }
}

/// The cheats of `n` steps or fewer one way, and of no more than `most`
/// steps in all.
pub open spec fn cheats_upto(x: int, y: int, most: int, n: nat) -> Seq<Cheat>
    decreases n,
{
    if n == 0 {
        Seq::empty()
    } else {
        cheats_upto(x, y, most, (n - 1) as nat) + cheats_across(x, y, n as int, (most - n + 1) as nat)
    }
}

/// The places two steps from a place in a straight line.
pub fn get_2ps_cheat_destinations(current: &Point) -> (around: [Point; 4])
    requires
        -32768 + 2 <= current.x <= 32767 - 2,
        -32768 + 2 <= current.y <= 32767 - 2,
    ensures
        around[0] == (Point { x: (current.x - 2) as i16, y: current.y }),
        around[1] == (Point { x: (current.x + 2) as i16, y: current.y }),
        around[2] == (Point { x: current.x, y: (current.y - 2) as i16 }),
        around[3] == (Point { x: current.x, y: (current.y + 2) as i16 }),
{
    [
        Point { x: current.x - 2, y: current.y },
        Point { x: current.x + 2, y: current.y },
        Point { x: current.x, y: current.y - 2 },
        Point { x: current.x, y: current.y + 2 },
    ]
}

/// The places that a cheat of no more than `max_cheat_time` steps leads to
/// from a place, each with the number of steps: all places so far away but
/// those at one step, and those at one step each way.
pub fn get_cheat_destinations(center: &Point, max_cheat_time: u8) -> (found: Vec<Cheat>)
    ensures
        found@ == cheats_upto(
            center.x as int,
            center.y as int,
            max_cheat_time as int,
            max_cheat_time as nat,
        ),
{
    let most = max_cheat_time as i32;
    let x = center.x as i32;
    let y = center.y as i32;
    let mut found: Vec<Cheat> = Vec::new();
    let mut offset_i: i32 = 1;
    while offset_i < most + 1
        invariant
            1 <= offset_i <= most + 1,
            most == max_cheat_time,
            x == center.x && y == center.y,
            found@ == cheats_upto(x as int, y as int, most as int, (offset_i - 1) as nat),
        decreases most + 1 - offset_i,
    {
        let remaining = most - offset_i;
        let ghost before = found@;
        let mut offset_j: i32 = 0;
        while offset_j < remaining + 1
            invariant
                0 <= offset_j <= remaining + 1,
                1 <= offset_i <= most,
                most <= 255,
                remaining == most - offset_i,
                x == center.x && y == center.y,
                found@ == before + cheats_across(x as int, y as int, offset_i as int, offset_j as nat),
            decreases remaining + 1 - offset_j,
        {
            let distance = (offset_i + offset_j) as usize;
            let ghost so_far = found@;
            if distance > 1 && !(offset_i == 1 && offset_j == 1) {
                found.push(Cheat { x: x - offset_i, y: y - offset_j, time: distance });
                found.push(Cheat { x: x + offset_j, y: y - offset_i, time: distance });
                found.push(Cheat { x: x + offset_i, y: y + offset_j, time: distance });
                found.push(Cheat { x: x - offset_j, y: y + offset_i, time: distance });
            }
            assert(found@ =~= so_far + four_ways(x as int, y as int, offset_i as int, offset_j as int));
            assert(found@ =~= before + cheats_across(
                x as int,
                y as int,
                offset_i as int,
                (offset_j + 1) as nat,
            ));
            offset_j += 1;
        }
        offset_i += 1;
    }
    found
}

impl Racetrack {
    /// Whether a cheat from a place that the track passes at `time` is
    /// good: it leads to a place that the track passes later than the
    /// cheat arrives, by `threshold` or more.
    pub open spec fn is_good(&self, time: usize, cheat: Cheat, threshold: usize) -> bool {
        match self.time_at(cheat.x as int, cheat.y as int) {
            Some(arrival) => arrival > time + cheat.time && arrival - (time + cheat.time)
                >= threshold,
            None => false,
        }
    }

    /// How many of the first `n` cheats are good.
    pub open spec fn good_among(&self, time: usize, cheats: Seq<Cheat>, threshold: usize, n: nat) -> nat
        decreases n,
    {
        if n == 0 {
            0
        } else {
            self.good_among(time, cheats, threshold, (n - 1) as nat) + if self.is_good(
                time,
                cheats[n - 1],
                threshold,
            ) {
                1nat
            } else {
                0nat
            }
        }
    }

    /// Whether cheats are looked for from the point at `i`: it is the last
    /// of the track at its place, and `threshold` or more from the end.
    pub open spec fn is_looked_at(&self, i: int, threshold: usize) -> bool {
        is_entry(self.path@, i) && i < entries(self.path@, self.path@.len()) - threshold
    }

    /// How many good cheats of two steps start at the first `n` points.
    pub open spec fn good_of_two(&self, threshold: usize, n: nat) -> nat
        decreases n,
    {
        if n == 0 {
            0
        } else {
            self.good_of_two(threshold, (n - 1) as nat) + if self.is_looked_at(n - 1, threshold) {
                let cheats = two_steps(self.path@[n - 1].x as int, self.path@[n - 1].y as int);
                self.good_among((n - 1) as usize, cheats, threshold, 4)
            } else {
                0
            }
        }
    }

    /// How many good cheats of `most` steps or fewer start at the first
    /// `n` points.
    pub open spec fn good_of_many(&self, threshold: usize, most: u8, n: nat) -> nat
        decreases n,
    {
        if n == 0 {
            0
        } else {
            self.good_of_many(threshold, most, (n - 1) as nat) + if self.is_looked_at(
                n - 1,
                threshold,
            ) {
                let cheats = cheats_upto(
                    self.path@[n - 1].x as int,
                    self.path@[n - 1].y as int,
                    most as int,
                    most as nat,
                );
                self.good_among((n - 1) as usize, cheats, threshold, cheats.len())
            } else {
                0
            }
        }
    }

    /// Whether the cheats of two steps can be told from every point from
    /// which they are looked for.
    pub open spec fn has_room(&self, threshold: usize) -> bool {
        forall|i: int|
            0 <= i < self.path@.len() && #[trigger] self.is_looked_at(i, threshold) ==> -32768 + 2
                <= self.path@[i].x <= 32767 - 2 && -32768 + 2 <= self.path@[i].y <= 32767 - 2
    }

    /// How many of the cheats from a place that the track passes at `time`
    /// are good.
    fn count_good(&self, time: usize, cheats: &Vec<Cheat>, threshold: usize) -> (count: usize)
        requires
            self.wf(),
        ensures
            count == self.good_among(time, cheats@, threshold, cheats@.len()),
            count <= cheats.len(),
    {
        let mut count: usize = 0;
        let mut n: usize = 0;
        while n < cheats.len()
            invariant
                self.wf(),
                n <= cheats.len(),
                count <= n,
                count == self.good_among(time, cheats@, threshold, n as nat),
            decreases cheats.len() - n,
        {
            let cheat = cheats[n];
            if let Some(arrival) = self.get(cheat.x, cheat.y) {
                if let Some(time_to_beat) = time.checked_add(cheat.time) {
                    if arrival > time_to_beat {
                        let cheated_steps = arrival - time_to_beat;
                        if cheated_steps >= threshold {
                            count += 1;
                        }
                    }
                }
            }
            n += 1;
        }
        count
    }
}

/// A sum grows with the points that are looked at.
pub proof fn lemma_good_grows(track: &Racetrack, threshold: usize, most: u8, n: nat, m: nat)
    requires
        n <= m,
    ensures
        track.good_of_two(threshold, n) <= track.good_of_two(threshold, m),
        track.good_of_many(threshold, most, n) <= track.good_of_many(threshold, most, m),
    decreases m,
{
    if n < m {
        lemma_good_grows(track, threshold, most, n, (m - 1) as nat);
    }
}

/// How many cheats of two steps in a straight line save `threshold` steps
/// or more; nothing where the track passes fewer places than `threshold`,
/// where a cheat would lead too far from the map to be told, or where the
/// number does not fit.
pub fn find_good_cheats_2ps(racetrack_map: &Racetrack, threshold: usize) -> (result: Option<u32>)
    requires
        racetrack_map.wf(),
    ensures
        result is Some <==> entries(racetrack_map.path@, racetrack_map.path@.len()) >= threshold
            && racetrack_map.has_room(threshold) && racetrack_map.good_of_two(
            threshold,
            racetrack_map.path@.len(),
        ) <= u32::MAX,
        result matches Some(count) ==> count == racetrack_map.good_of_two(
            threshold,
            racetrack_map.path@.len(),
        ),
{
    let race_length = racetrack_map.len();
    if race_length < threshold {
        return None;
    }
    let ghost all = racetrack_map.path@;
    let mut num_of_cheats: u32 = 0;
    let mut i: usize = 0;
    while i < racetrack_map.path.len()
        invariant
            racetrack_map.wf(),
            i <= racetrack_map.path.len(),
            all == racetrack_map.path@,
            race_length == entries(all, all.len()),
            race_length >= threshold,
            num_of_cheats == racetrack_map.good_of_two(threshold, i as nat),
            forall|j: int|
                0 <= j < i && #[trigger] racetrack_map.is_looked_at(j, threshold) ==> -32768 + 2
                    <= all[j].x <= 32767 - 2 && -32768 + 2 <= all[j].y <= 32767 - 2,
        decreases racetrack_map.path.len() - i,
    {
        proof {
            lemma_good_grows(racetrack_map, threshold, 0, (i + 1) as nat, all.len());
        }
        if racetrack_map.is_last(i) && i < race_length - threshold {
            let cheat_from = racetrack_map.path[i];
            if cheat_from.x < -32768 + 2 || cheat_from.x > 32767 - 2 || cheat_from.y < -32768 + 2
                || cheat_from.y > 32767 - 2 {
                assert(racetrack_map.is_looked_at(i as int, threshold));
                return None;
            }
            let around = get_2ps_cheat_destinations(&cheat_from);
            let mut cheats: Vec<Cheat> = Vec::new();
            let mut n: usize = 0;
            while n < 4
                invariant
                    n <= 4,
                    cheats.len() == n,
                    forall|t: int|
                        0 <= t < n ==> #[trigger] cheats[t] == (Cheat {
                            x: around[t].x as i32,
                            y: around[t].y as i32,
                            time: 2,
                        }),
                decreases 4 - n,
            {
                cheats.push(Cheat { x: around[n].x as i32, y: around[n].y as i32, time: 2 });
                n += 1;
            }
            assert(cheats@ =~= two_steps(cheat_from.x as int, cheat_from.y as int));
            let good = racetrack_map.count_good(i, &cheats, threshold);
            num_of_cheats = match num_of_cheats.checked_add(good as u32) {
                None => {
                    return None;
                },
                Some(sum) => sum,
            };
        }
        i += 1;
    }
    Some(num_of_cheats)
}

/// How many cheats of `max_cheat_time` steps or fewer save `threshold`
/// steps or more; nothing where the track passes fewer places than
/// `threshold`, or where the number does not fit.
pub fn find_good_cheats_with(racetrack_map: &Racetrack, threshold: usize, max_cheat_time: u8) -> (result:
    Option<u32>)
    requires
        racetrack_map.wf(),
    ensures
        result is Some <==> entries(racetrack_map.path@, racetrack_map.path@.len()) >= threshold
            && racetrack_map.good_of_many(threshold, max_cheat_time, racetrack_map.path@.len())
            <= u32::MAX,
        result matches Some(count) ==> count == racetrack_map.good_of_many(
            threshold,
            max_cheat_time,
            racetrack_map.path@.len(),
        ),
{
    let race_length = racetrack_map.len();
    if race_length < threshold {
        return None;
    }
    let ghost all = racetrack_map.path@;
    let mut num_of_cheats: u32 = 0;
    let mut i: usize = 0;
    while i < racetrack_map.path.len()
        invariant
            racetrack_map.wf(),
            i <= racetrack_map.path.len(),
            all == racetrack_map.path@,
            race_length == entries(all, all.len()),
            race_length >= threshold,
            num_of_cheats == racetrack_map.good_of_many(threshold, max_cheat_time, i as nat),
        decreases racetrack_map.path.len() - i,
    {
        proof {
            lemma_good_grows(racetrack_map, threshold, max_cheat_time, (i + 1) as nat, all.len());
        }
        if racetrack_map.is_last(i) && i < race_length - threshold {
            let cheat_from = racetrack_map.path[i];
            let cheats = get_cheat_destinations(&cheat_from, max_cheat_time);
            let good = racetrack_map.count_good(i, &cheats, threshold);
            if good > 0xffff_ffff {
                return None;
            }
            num_of_cheats = match num_of_cheats.checked_add(good as u32) {
                None => {
                    return None;
                },
                Some(sum) => sum,
            };
        }
        i += 1;
    }
    Some(num_of_cheats)
}

/// Whether the race of the lines can be run: the start lies in their
/// square, and a way leads from it to the end between the walls.
pub open spec fn has_way(all: Seq<Seq<char>>) -> bool {
    let start = last_mark(all, 'S', all.len(), 0);
    let end = last_mark(all, 'E', all.len(), 0);
    &&& 0 <= start.x < all.len()
    &&& 0 <= start.y < all.len()
    &&& exists|route: Seq<char>|
        connects(
            opened(square_of(all), start.x as int, start.y as int),
            cell_of(start),
            cell_of(end),
            route,
        )
}

/// Whether the points are those of a track of the race of the lines.
pub open spec fn is_track_in(all: Seq<Seq<char>>, track: Racetrack) -> bool {
    track.wf() && is_track_of(
        square_of(all),
        last_mark(all, 'S', all.len(), 0),
        last_mark(all, 'E', all.len(), 0),
        track.path@,
    )
}

/// Whether the good cheats of the track can be counted with a threshold
/// of a hundred steps: the track passes a hundred places or more, the
/// cheats of two steps can be told from every point from which they are
/// looked for, and both counts fit in 32 bits.
pub open spec fn can_count(track: Racetrack) -> bool {
    &&& entries(track.path@, track.path@.len()) >= 100
    &&& track.has_room(100)
    &&& track.good_of_two(100, track.path@.len()) <= u32::MAX
    &&& track.good_of_many(100, 20, track.path@.len()) <= u32::MAX
}

/// How many cheats of two steps, and how many of twenty steps or fewer,
/// save a hundred steps or more on a shortest track of the map that the
/// text draws; nothing where the text draws no map, where the race cannot
/// be run, or where the cheats of the track cannot be counted.
pub fn solve(input: &str) -> (result: Option<(u32, u32)>)
    ensures
        match result {
            Some(found) => is_map(lines_of(input@)) && has_way(lines_of(input@)) && exists|
                track: Racetrack,
            | #[trigger]
                is_track_in(lines_of(input@), track) && can_count(track) && found.0
                    == track.good_of_two(100, track.path@.len()) && found.1 == track.good_of_many(
                    100,
                    20,
                    track.path@.len(),
                ),
            None => !is_map(lines_of(input@)) || !has_way(lines_of(input@)) || exists|
                track: Racetrack,
            | #[trigger] is_track_in(lines_of(input@), track) && !can_count(track),
        },
{
    let ghost all = lines_of(input@);
    let threshold: usize = 100;
    let map = match RaceMap::parse(input) {
        None => {
            return None;
        },
        Some(map) => map,
    };
    let path = match map.dijkstra() {
        None => {
            proof {
                if has_way(all) {
                    let route = choose|route: Seq<char>|
                        connects(
                            opened(square_of(all), map.start.x as int, map.start.y as int),
                            cell_of(map.start),
                            cell_of(map.end),
                            route,
                        );
                    assert(map.leads(route));
                }
            }
            return None;
        },
        Some(path) => path,
    };
    proof {
        let route = choose|route: Seq<char>| #[trigger]
            is_shortest(
                opened(map.rows(), map.start.x as int, map.start.y as int),
                cell_of(map.start),
                cell_of(map.end),
                route,
            ) && cells(path@) == places(cell_of(map.start), route);
        assert(connects(
            opened(square_of(all), map.start.x as int, map.start.y as int),
            cell_of(map.start),
            cell_of(map.end),
            route,
        ));
        assert(has_way(all));
    }
    let racetrack_map = Racetrack::new(path);
    assert(is_track_in(all, racetrack_map));
    let part1 = match find_good_cheats_2ps(&racetrack_map, threshold) {
        None => {
            assert(!can_count(racetrack_map));
            return None;
        },
        Some(count) => count,
    };
    let part2 = match find_good_cheats_with(&racetrack_map, threshold, 20) {
        None => {
            assert(!can_count(racetrack_map));
            return None;
        },
        Some(count) => count,
    };
    assert(can_count(racetrack_map));
    let result = Some((part1, part2));
    proof {
        assert(is_track_in(all, racetrack_map) && can_count(racetrack_map) && result->Some_0.0
            == racetrack_map.good_of_two(100, racetrack_map.path@.len()) && result->Some_0.1
            == racetrack_map.good_of_many(100, 20, racetrack_map.path@.len()));
    }
    result
}

} // verus!
