//! A memory space onto which bytes fall, one after the other, and corrupt
//! the places that they hit: the shortest way from one corner to the
//! other, and the first byte that leaves no way.

use crate::keypad::layout::{
    connects, holds_button, is_shortest, lemma_walk_ends_on_button, lemma_walk_starts_on_button,
    route_end, walks, Cell,
};
use crate::keypad::routes::{cell_at, cell_count};
use crate::mazes::{cells_of, find_route, lemma_cell_count_bound, places, places_of};
use crate::text::{lines, lines_of, parse_signed, signed_value, is_signed_number, split, split_on, views};
use vstd::prelude::*;

verus! {

/// The largest width and height of a memory space.
pub const MAX_SIDE: usize = 127;

/// A place in the memory space, or beside it.
#[derive(Clone, Copy, Debug, PartialEq, Eq)]
pub struct Point {
    pub x: i8,
    pub y: i8,
}

/// A direction in which to go.
pub type Direction = u8;

pub const NORTH: Direction = 0;

pub const EAST: Direction = 1;

pub const SOUTH: Direction = 2;

pub const WEST: Direction = 3;

/// A memory space: its rows, in which `#` is a corrupted place, and its
/// size.
#[derive(Debug)]
pub struct MemorySpace {
    pub grid: Vec<Vec<char>>,
    pub width: usize,
    pub height: usize,
}

/// The rows with the place (`x`, `y`) set to `c`, where it is one of their
/// places.
pub open spec fn with_place(rows: Seq<Seq<char>>, x: int, y: int, c: char) -> Seq<Seq<char>> {
    if 0 <= y < rows.len() && 0 <= x < rows[y].len() {
        rows.update(y, rows[y].update(x, c))
    } else {
        rows
    }
}

/// The rows of a space in which no place is corrupted.
pub open spec fn blank_rows(width: nat, height: nat) -> Seq<Seq<char>> {
    Seq::new(height, |y: int| Seq::new(width, |x: int| '.'))
}

/// The rows once the first `n` of the bytes have fallen.
pub open spec fn rows_after(rows: Seq<Seq<char>>, bytes: Seq<Point>, n: nat) -> Seq<Seq<char>>
    decreases n,
{
    if n == 0 {
        rows
    } else {
        with_place(
            rows_after(rows, bytes, (n - 1) as nat),
            bytes[n - 1].x as int,
            bytes[n - 1].y as int,
            '#',
        )
    }
}

/// The place of a point.
pub open spec fn cell_of(p: Point) -> Cell {
    Cell { x: p.x as int, y: p.y as int }
}

/// The places of the points.
pub open spec fn cells(points: Seq<Point>) -> Seq<Cell> {
    Seq::new(points.len(), |i: int| cell_of(points[i]))
}

/// Whether a route leads from the start to the end over places that are
/// not corrupted; the start itself may be.
pub open spec fn leads(rows: Seq<Seq<char>>, start: Point, end: Point, route: Seq<char>) -> bool {
    connects(with_place(rows, start.x as int, start.y as int, '.'), cell_of(start), cell_of(end), route)
}

/// Whether there is a way from the start to the end.
pub open spec fn has_way(rows: Seq<Seq<char>>, start: Point, end: Point) -> bool {
    exists|route: Seq<char>| leads(rows, start, end, route)
}

/// Whether the points are the places of a way from the start to the end.
pub open spec fn is_way(rows: Seq<Seq<char>>, start: Point, end: Point, path: Seq<Point>) -> bool {
    exists|route: Seq<char>| #[trigger]
        leads(rows, start, end, route) && cells(path) == places(cell_of(start), route)
}

/// Whether the points are the places of a shortest way from the start to
/// the end, of `distance` steps.
pub open spec fn is_shortest_way(
    rows: Seq<Seq<char>>,
    start: Point,
    end: Point,
    distance: nat,
    path: Seq<Point>,
) -> bool {
    exists|route: Seq<char>| #[trigger]
        is_shortest(
            with_place(rows, start.x as int, start.y as int, '.'),
            cell_of(start),
            cell_of(end),
            route,
        ) && route.len() == distance && cells(path) == places(cell_of(start), route)
}

/// A route that passes a place at none of its steps keeps to the grid when
/// that place becomes a wall.
pub proof fn lemma_walk_survives(rows: Seq<Seq<char>>, start: Cell, route: Seq<char>, x: int, y: int)
    requires
        walks(rows, start, route),
        forall|i: int|
            0 <= i <= route.len() ==> #[trigger] places(start, route)[i] != (Cell { x, y }),
    ensures
        walks(with_place(rows, x, y, '#'), start, route),
    decreases route.len(),
{
    let after = with_place(rows, x, y, '#');
    if route.len() == 0 {
        assert(route.take(0) =~= route);
        assert(places(start, route)[0] == start);
    } else {
        let shorter = route.drop_last();
        assert forall|i: int| 0 <= i <= shorter.len() implies #[trigger] places(start, shorter)[i]
            != (Cell { x, y }) by {
            assert(shorter.take(i) =~= route.take(i));
            assert(places(start, route)[i] == route_end(start, route.take(i)));
        }
        lemma_walk_survives(rows, start, shorter, x, y);
        assert(route.take(route.len() as int) =~= route);
        assert(places(start, route)[route.len() as int] == route_end(start, route));
    }
}

impl Point {
    pub fn new(x: i8, y: i8) -> (p: Point)
        ensures
            p.x == x && p.y == y,
    {
        Point { x, y }
    }

    /// The place one step in a direction.
    pub fn go(&self, direction: Direction) -> (p: Point)
        requires
            direction <= WEST,
            -128 < self.x < 127,
            -128 < self.y < 127,
        ensures
            direction == NORTH ==> p.x == self.x && p.y == self.y - 1,
            direction == EAST ==> p.x == self.x + 1 && p.y == self.y,
            direction == SOUTH ==> p.x == self.x && p.y == self.y + 1,
            direction == WEST ==> p.x == self.x - 1 && p.y == self.y,
    {
        if direction == NORTH {
            Point { x: self.x, y: self.y - 1 }
        } else if direction == EAST {
            Point { x: self.x + 1, y: self.y }
        } else if direction == SOUTH {
            Point { x: self.x, y: self.y + 1 }
        } else {
            Point { x: self.x - 1, y: self.y }
        }
    }
}

impl MemorySpace {
    /// Whether the space has the rows and columns that it says, no more
    /// than `MAX_SIDE` of each.
    pub open spec fn wf(&self) -> bool {
        &&& self.height <= MAX_SIDE
        &&& self.width <= MAX_SIDE
        &&& self.grid.len() == self.height
        &&& forall|y: int| 0 <= y < self.grid.len() ==> (#[trigger] self.grid[y]).len() == self.width
    }

    /// The rows of the space.
    pub open spec fn rows(&self) -> Seq<Seq<char>> {
        views(self.grid@)
    }

    /// Whether the point lies in the space.
    pub open spec fn in_space(&self, p: Point) -> bool {
        0 <= p.x < self.width && 0 <= p.y < self.height
    }

    /// A space of the given size in which no place is corrupted.
    pub fn new(width: usize, height: usize) -> (space: MemorySpace)
        requires
            width <= MAX_SIDE,
            height <= MAX_SIDE,
        ensures
            space.wf(),
            space.width == width,
            space.height == height,
            space.rows() == blank_rows(width as nat, height as nat),
    {
        let mut grid: Vec<Vec<char>> = Vec::new();
        let mut y: usize = 0;
        while y < height
            invariant
                y <= height,
                grid.len() == y,
                forall|v: int| 0 <= v < y ==> (#[trigger] grid[v]).len() == width,
                forall|u: int, v: int| 0 <= v < y && 0 <= u < width ==> #[trigger] grid[v][u] == '.',
            decreases height - y,
        {
            let mut row: Vec<char> = Vec::new();
            let mut x: usize = 0;
            while x < width
                invariant
                    x <= width,
                    row.len() == x,
                    forall|u: int| 0 <= u < x ==> row[u] == '.',
                decreases width - x,
            {
                row.push('.');
                x += 1;
            }
            grid.push(row);
            y += 1;
        }
        let space = MemorySpace { grid, width, height };
        assert(space.rows() =~= blank_rows(width as nat, height as nat)) by {
            assert forall|y: int| 0 <= y < height implies #[trigger] space.rows()[y] =~= blank_rows(
                width as nat,
                height as nat,
            )[y] by {
                assert(space.rows()[y] == space.grid[y]@);
            }
        }
        space
    }

    /// Whether the place is not corrupted; nothing for a point beside the
    /// space.
    pub fn is_safe(&self, p: &Point) -> (safe: Option<bool>)
        requires
            self.wf(),
        ensures
            safe is Some <==> self.in_space(*p),
            safe matches Some(free) ==> free == (self.rows()[p.y as int][p.x as int] != '#'),
    {
        if p.x > -1 && p.y > -1 && (p.x as usize) < self.width && (p.y as usize) < self.height {
            assert(self.rows()[p.y as int] == self.grid[p.y as int]@);
            Some(self.grid[p.y as usize][p.x as usize] != '#')
        } else {
            None
        }
    }

    /// Sets a place of the space; changes nothing for a point beside it.
    fn set(&mut self, p: Point, c: char)
        requires
            old(self).wf(),
        ensures
            final(self).wf(),
            final(self).width == old(self).width,
            final(self).height == old(self).height,
            final(self).rows() == with_place(old(self).rows(), p.x as int, p.y as int, c),
    {
        if p.x > -1 && p.y > -1 && (p.x as usize) < self.width && (p.y as usize) < self.height {
            let ghost before = self.grid@;
            self.grid[p.y as usize][p.x as usize] = c;
            proof {
                assert(self.rows() =~= with_place(old(self).rows(), p.x as int, p.y as int, c)) by {
                    assert forall|y: int| 0 <= y < self.grid.len() implies #[trigger] self.rows()[y]
                        == with_place(old(self).rows(), p.x as int, p.y as int, c)[y] by {
                        assert(old(self).rows()[y] == before[y]@);
                        assert(self.rows()[y] == self.grid[y]@);
                    }
                }
            }
        }
    }

    /// Corrupts a place of the space.
    pub fn corrupt(&mut self, p: Point)
        requires
            old(self).wf(),
        ensures
            final(self).wf(),
            final(self).width == old(self).width,
            final(self).height == old(self).height,
            final(self).rows() == with_place(old(self).rows(), p.x as int, p.y as int, '#'),
    {
        self.set(p, '#');
    }

    /// A copy of the space.
    fn copy(&self) -> (space: MemorySpace)
        requires
            self.wf(),
        ensures
            space.wf(),
            space.width == self.width,
            space.height == self.height,
            space.rows() == self.rows(),
    {
        let mut grid: Vec<Vec<char>> = Vec::new();
        let mut y: usize = 0;
        while y < self.grid.len()
            invariant
                self.wf(),
                y <= self.grid.len(),
                grid.len() == y,
                forall|v: int| 0 <= v < y ==> (#[trigger] grid[v])@ == self.grid[v]@,
            decreases self.grid.len() - y,
        {
            let row = crate::text::copy_range(&self.grid[y], 0, self.grid[y].len());
            assert(row@ =~= self.grid[y as int]@);
            grid.push(row);
            y += 1;
        }
        let space = MemorySpace { grid, width: self.width, height: self.height };
        assert(space.rows() =~= self.rows());
        space
    }

    /// The length of a shortest way from a place of the space to another
    /// over places that are not corrupted, and its places; nothing where
    /// there is no way.
    pub fn find_path(&self, start: &Point, end: &Point) -> (found: Option<(usize, Vec<Point>)>)
        requires
            self.wf(),
            self.in_space(*start),
        ensures
            match found {
                Some(way) => is_shortest_way(self.rows(), *start, *end, way.0 as nat, way.1@),
                None => !has_way(self.rows(), *start, *end),
            },
    {
        let ghost rows = with_place(self.rows(), start.x as int, start.y as int, '.');
        let mut open = self.copy();
        open.set(*start, '.');
        assert(open.rows() == rows);
        if end.x < 0 || end.y < 0 {
            proof {
                assert forall|route: Seq<char>| !leads(self.rows(), *start, *end, route) by {
                    if leads(self.rows(), *start, *end, route) {
                        lemma_walk_ends_on_button(rows, cell_of(*start), route);
                    }
                }
            }
            return None;
        }
        proof {
            lemma_cell_count_bound(rows, 127);
            assert(rows.len() * 127 <= 127 * 127) by (nonlinear_arith)
                requires
                    rows.len() <= 127,
            ;
        }
        let sx = start.x as usize;
        let sy = start.y as usize;
        assert(cell_at(sx, sy) == cell_of(*start));
        assert(cell_at(end.x as usize, end.y as usize) == cell_of(*end));
        let route = match find_route(&open.grid, sx, sy, end.x as usize, end.y as usize) {
            None => {
                return None;
            },
            Some(route) => route,
        };
        let passed = places_of(&open.grid, sx, sy, &route);
        let mut path: Vec<Point> = Vec::new();
        let mut i: usize = 0;
        while i < passed.len()
            invariant
                i <= passed.len(),
                open.wf(),
                path.len() == i,
                forall|j: int|
                    0 <= j < passed.len() ==> holds_button(
                        open.rows(),
                        cell_at((#[trigger] passed[j]).0, passed[j].1),
                    ),
                forall|j: int| 0 <= j < i ==> cell_of(#[trigger] path[j]) == cell_at(passed[j].0, passed[j].1),
            decreases passed.len() - i,
        {
            let (x, y) = passed[i];
            proof {
                assert(holds_button(open.rows(), cell_at(passed[i as int].0, passed[i as int].1)));
                assert(open.rows()[y as int] == open.grid[y as int]@);
            }
            path.push(Point { x: x as i8, y: y as i8 });
            i += 1;
        }
        proof {
            assert(cells(path@) =~= cells_of(passed@));
            assert(is_shortest(rows, cell_of(*start), cell_of(*end), route@));
        }
        Some((route.len(), path))
    }
}

/// A step of a search: a place, how far it is from the start, and the
/// places before it.
#[derive(Debug)]
pub struct Step {
    pub node: Point,
    pub distance: usize,
    pub path: Vec<Point>,
}

/// Whether the point is among the points.
fn is_on(path: &Vec<Point>, p: Point) -> (found: bool)
    ensures
        found == exists|i: int| 0 <= i < path.len() && path[i] == p,
{
    let mut i: usize = 0;
    while i < path.len()
        invariant
            i <= path.len(),
            forall|j: int| 0 <= j < i ==> path[j] != p,
        decreases path.len() - i,
    {
        if path[i].x == p.x && path[i].y == p.y {
            return true;
        }
        i += 1;
    }
    false
}

/// A copy of the points.
fn copy_points(points: &Vec<Point>) -> (copy: Vec<Point>)
    ensures
        copy@ == points@,
{
    let mut copy: Vec<Point> = Vec::new();
    let mut i: usize = 0;
    while i < points.len()
        invariant
            i <= points.len(),
            copy@ == points@.take(i as int),
        decreases points.len() - i,
    {
        copy.push(points[i]);
        assert(points@.take(i + 1) =~= points@.take(i as int).push(points[i as int]));
        i += 1;
    }
    assert(points@.take(i as int) == points@);
    copy
}

impl MemorySpace {
    /// The steps from a step to the places at its sides that lie in the
    /// space and are not corrupted: to the north, the west, the south and
    /// the east, each one further from the start and with the place of the
    /// step at the end of its path.
    pub fn get_neighbours(&self, current: Step) -> (found: Vec<Step>)
        requires
            self.wf(),
            -128 < current.node.x < 127,
            -128 < current.node.y < 127,
            current.distance < usize::MAX,
        ensures
            found.len() <= 4,
            forall|i: int|
                0 <= i < found.len() ==> {
                    let next = #[trigger] found[i];
                    &&& next.distance == current.distance + 1
                    &&& next.path@ == current.path@.push(current.node)
                    &&& self.in_space(next.node)
                    &&& self.rows()[next.node.y as int][next.node.x as int] != '#'
                    &&& (next.node.x - current.node.x == 0 && (next.node.y - current.node.y == 1
                        || next.node.y - current.node.y == -1)) || (next.node.y - current.node.y == 0
                        && (next.node.x - current.node.x == 1 || next.node.x - current.node.x == -1))
                },
            forall|direction: Direction|
                direction <= WEST ==> {
                    let p = #[trigger] gone(current.node, direction);
                    self.in_space(p) && self.rows()[p.y as int][p.x as int] != '#' ==> exists|i: int|
                        0 <= i < found.len() && found[i].node == p
                },
    {
        let mut new_path = copy_points(&current.path);
        new_path.push(current.node);
        let distance = current.distance + 1;
        let mut found: Vec<Step> = Vec::new();
        let order = [NORTH, WEST, SOUTH, EAST];
        let mut n: usize = 0;
        while n < 4
            invariant
                n <= 4,
                self.wf(),
                -128 < current.node.x < 127,
                -128 < current.node.y < 127,
                order@ == seq![NORTH, WEST, SOUTH, EAST],
                distance == current.distance + 1,
                new_path@ == current.path@.push(current.node),
                found.len() <= n,
                forall|i: int|
                    0 <= i < found.len() ==> {
                        let next = #[trigger] found[i];
                        &&& next.distance == current.distance + 1
                        &&& next.path@ == current.path@.push(current.node)
                        &&& self.in_space(next.node)
                        &&& self.rows()[next.node.y as int][next.node.x as int] != '#'
                        &&& (next.node.x - current.node.x == 0 && (next.node.y - current.node.y == 1
                            || next.node.y - current.node.y == -1)) || (next.node.y - current.node.y
                            == 0 && (next.node.x - current.node.x == 1 || next.node.x
                            - current.node.x == -1))
                    },
                forall|t: int|
                    0 <= t < n ==> {
                        let p = gone(current.node, #[trigger] order[t]);
                        self.in_space(p) && self.rows()[p.y as int][p.x as int] != '#' ==> exists|i: int|
                            0 <= i < found.len() && found[i].node == p
                    },
            decreases 4 - n,
        {
            let node = current.node.go(order[n]);
            assert(node == gone(current.node, order[n as int]));
            let ghost before = found@;
            if let Some(true) = self.is_safe(&node) {
                found.push(Step { node, distance, path: copy_points(&new_path) });
                assert(found[before.len() as int].node == node);
            }
            proof {
                assert forall|t: int| 0 <= t < n + 1 implies {
                    let p = gone(current.node, #[trigger] order[t]);
                    self.in_space(p) && self.rows()[p.y as int][p.x as int] != '#' ==> exists|i: int|
                        0 <= i < found.len() && found[i].node == p
                } by {
                    let p = gone(current.node, order[t]);
                    if t < n && self.in_space(p) && self.rows()[p.y as int][p.x as int] != '#' {
                        let i = choose|i: int| 0 <= i < before.len() && before[i].node == p;
                        assert(found[i].node == p);
                    }
                }
            }
            n += 1;
        }
        proof {
            assert forall|direction: Direction| direction <= WEST implies {
                let p = #[trigger] gone(current.node, direction);
                self.in_space(p) && self.rows()[p.y as int][p.x as int] != '#' ==> exists|i: int|
                    0 <= i < found.len() && found[i].node == p
            } by {
                let t: int = if direction == NORTH {
                    0
                } else if direction == WEST {
                    1
                } else if direction == SOUTH {
                    2
                } else {
                    3
                };
                assert(order[t] == direction);
            }
        }
        found
    }

    /// The first of the bytes that leaves no way from the start to the end
    /// when it falls after those before it; nothing where a way is left
    /// when all have fallen. The space is then as the bytes have left it,
    /// up to that byte or all of them.
    pub fn find_blockade(
        &mut self,
        safe_path: Vec<Point>,
        start: &Point,
        end: &Point,
        next_bytes: Vec<Point>,
    ) -> (found: Option<Point>)
        requires
            old(self).wf(),
            old(self).in_space(*start),
            is_way(old(self).rows(), *start, *end, safe_path@),
        ensures
            final(self).wf(),
            match found {
                Some(byte) => exists|n: int|
                    0 <= n < next_bytes.len() && next_bytes[n] == byte && final(self).rows()
                        == #[trigger] rows_after(old(self).rows(), next_bytes@, (n + 1) as nat)
                        && !has_way(final(self).rows(), *start, *end) && forall|fewer: nat|
                        fewer <= n ==> has_way(
                            #[trigger] rows_after(old(self).rows(), next_bytes@, fewer),
                            *start,
                            *end,
                        ),
                None => final(self).rows() == rows_after(
                    old(self).rows(),
                    next_bytes@,
                    next_bytes@.len(),
                ) && forall|fewer: nat|
                    fewer <= next_bytes.len() ==> has_way(
                        #[trigger] rows_after(old(self).rows(), next_bytes@, fewer),
                        *start,
                        *end,
                    ),
            },
    {
        let ghost first = self.rows();
        let mut safe_path = safe_path;
        let mut n: usize = 0;
        while n < next_bytes.len()
            invariant
                n <= next_bytes.len(),
                self.wf(),
                self.width == old(self).width,
                self.height == old(self).height,
                self.in_space(*start),
                first == old(self).rows(),
                self.rows() == rows_after(first, next_bytes@, n as nat),
                is_way(self.rows(), *start, *end, safe_path@),
                forall|fewer: nat|
                    fewer <= n ==> has_way(#[trigger] rows_after(first, next_bytes@, fewer), *start, *end),
            decreases next_bytes.len() - n,
        {
            let next_corruption = next_bytes[n];
            let ghost before = self.rows();
            let path_blocked = is_on(&safe_path, next_corruption);
            self.corrupt(next_corruption);
            assert(self.rows() == rows_after(first, next_bytes@, (n + 1) as nat));
            if path_blocked {
                match self.find_path(start, end) {
                    Some((_, path)) => {
                        safe_path = path;
                        proof {
                            let route = choose|route: Seq<char>| #[trigger]
                                is_shortest(
                                    with_place(self.rows(), start.x as int, start.y as int, '.'),
                                    cell_of(*start),
                                    cell_of(*end),
                                    route,
                                ) && cells(safe_path@) == places(cell_of(*start), route);
                            assert(leads(self.rows(), *start, *end, route));
                        }
                    },
                    None => {
                        return Some(next_corruption);
                    },
                }
            } else {
                proof {
                    let route = choose|route: Seq<char>| #[trigger]
                        leads(before, *start, *end, route) && cells(safe_path@) == places(
                            cell_of(*start),
                            route,
                        );
                    let cleared = with_place(before, start.x as int, start.y as int, '.');
                    let hit = cell_of(next_corruption);
                    assert forall|i: int| 0 <= i <= route.len() implies #[trigger] places(
                        cell_of(*start),
                        route,
                    )[i] != hit by {
                        assert(places(cell_of(*start), route).len() == route.len() + 1);
                        assert(cells(safe_path@).len() == safe_path.len());
                        assert(cells(safe_path@)[i] == cell_of(safe_path[i]));
                        if cell_of(safe_path[i]) == hit {
                            assert(safe_path[i] == next_corruption);
                        }
                    }
                    lemma_walk_survives(cleared, cell_of(*start), route, hit.x, hit.y);
                    assert(places(cell_of(*start), route)[0] == cell_of(*start)) by {
                        assert(route.take(0) =~= Seq::<char>::empty());
                    }
                    assert(with_place(cleared, hit.x, hit.y, '#') =~= with_place(
                        self.rows(),
                        start.x as int,
                        start.y as int,
                        '.',
                    )) by {
                        lemma_places_apart(before, start.x as int, start.y as int, hit.x, hit.y);
                    }
                    assert(leads(self.rows(), *start, *end, route));
                }
            }
            proof {
                assert(has_way(self.rows(), *start, *end)) by {
                    let route = choose|route: Seq<char>| #[trigger]
                        leads(self.rows(), *start, *end, route) && cells(safe_path@) == places(
                            cell_of(*start),
                            route,
                        );
                    assert(leads(self.rows(), *start, *end, route));
                }
            }
            n += 1;
        }
        None
    }
}

/// The place one step from a point in a direction.
pub open spec fn gone(p: Point, direction: Direction) -> Point {
    if direction == NORTH {
        Point { x: p.x, y: (p.y - 1) as i8 }
    } else if direction == EAST {
        Point { x: (p.x + 1) as i8, y: p.y }
    } else if direction == SOUTH {
        Point { x: p.x, y: (p.y + 1) as i8 }
    } else {
        Point { x: (p.x - 1) as i8, y: p.y }
    }
}

/// To set two places that differ gives the same rows in either order.
proof fn lemma_places_apart(rows: Seq<Seq<char>>, x: int, y: int, u: int, v: int)
    requires
        x != u || y != v,
    ensures
        with_place(with_place(rows, x, y, '.'), u, v, '#') =~= with_place(
            with_place(rows, u, v, '#'),
            x,
            y,
            '.',
        ),
{
    let one = with_place(with_place(rows, x, y, '.'), u, v, '#');
    let other = with_place(with_place(rows, u, v, '#'), x, y, '.');
    assert(one.len() == other.len());
    assert forall|j: int| 0 <= j < one.len() implies one[j] =~= other[j] by {}
}

/// Whether a line writes a point: two numbers of eight bits with a comma
/// between them.
pub open spec fn is_point(line: Seq<char>) -> bool {
    let parts = split_on(line, ',');
    parts.len() >= 2 && is_signed_number(parts[0]) && -128 <= signed_value(parts[0]) <= 127
        && is_signed_number(parts[1]) && -128 <= signed_value(parts[1]) <= 127
}

/// The point that a line writes.
pub open spec fn point_of(line: Seq<char>) -> Point {
    let parts = split_on(line, ',');
    Point { x: signed_value(parts[0]) as i8, y: signed_value(parts[1]) as i8 }
}

/// The points of the first `n` lines.
pub open spec fn points_of(all: Seq<Seq<char>>, n: nat) -> Seq<Point>
    decreases n,
{
    if n == 0 {
        Seq::empty()
    } else {
        points_of(all, (n - 1) as nat).push(point_of(all[n - 1]))
    }
}

/// The points that the text writes, one on each line; nothing where a line
/// writes no point.
pub fn parse_points(input: &str) -> (result: Option<Vec<Point>>)
    ensures
        result is Some <==> forall|i: int|
            0 <= i < lines_of(input@).len() ==> is_point(#[trigger] lines_of(input@)[i]),
        result matches Some(points) ==> points@ == points_of(lines_of(input@), lines_of(input@).len()),
{
    let all = lines(input);
    let mut points: Vec<Point> = Vec::new();
    let mut i: usize = 0;
    while i < all.len()
        invariant
            i <= all.len(),
            views(all@) == lines_of(input@),
            points@ == points_of(lines_of(input@), i as nat),
            forall|j: int| 0 <= j < i ==> is_point(#[trigger] lines_of(input@)[j]),
        decreases all.len() - i,
    {
        assert(views(all@)[i as int] == all[i as int]@);
        let parts = split(&all[i], ',');
        if parts.len() < 2 {
            return None;
        }
        assert(views(parts@)[0] == parts[0]@ && views(parts@)[1] == parts[1]@);
        let x = match parse_signed(&parts[0], 128) {
            None => {
                return None;
            },
            Some(x) => x,
        };
        let y = match parse_signed(&parts[1], 128) {
            None => {
                return None;
            },
            Some(y) => y,
        };
        if x > 127 || y > 127 {
            return None;
        }
        points.push(Point { x: x as i8, y: y as i8 });
        i += 1;
    }
    Some(points)
}

impl MemorySpace {
    /// A space of `size` + 1 rows and columns onto which the first `bytes`
    /// of the points that the text writes have fallen, and the other
    /// points; nothing where a line writes no point or the space is too
    /// large.
    pub fn parse(input: &str, bytes: usize, size: usize) -> (result: Option<(MemorySpace, Vec<Point>)>)
        ensures
            result is Some <==> size < MAX_SIDE && forall|i: int|
                0 <= i < lines_of(input@).len() ==> is_point(#[trigger] lines_of(input@)[i]),
            result matches Some(found) ==> {
                let points = points_of(lines_of(input@), lines_of(input@).len());
                let fallen = if bytes < points.len() {
                    bytes as nat
                } else {
                    points.len()
                };
                &&& found.0.wf()
                &&& found.0.width == size + 1
                &&& found.0.height == size + 1
                &&& found.0.rows() == rows_after(
                    blank_rows((size + 1) as nat, (size + 1) as nat),
                    points,
                    fallen,
                )
                &&& found.1@ == points.skip(fallen as int)
            },
    {
        let points = match parse_points(input) {
            None => {
                return None;
            },
            Some(points) => points,
        };
        if size >= MAX_SIDE {
            return None;
        }
        let blank = MemorySpace::new(size + 1, size + 1);
        let mut space = blank.copy();
        let mut remaining_bytes: Vec<Point> = Vec::new();
        let mut i: usize = 0;
        let ghost mut fallen: nat = 0;
        while i < points.len()
            invariant
                i <= points.len(),
                space.wf(),
                space.width == size + 1,
                space.height == size + 1,
                fallen == if bytes < i {
                    bytes as nat
                } else {
                    i as nat
                },
                space.rows() == rows_after(blank.rows(), points@, fallen),
                remaining_bytes@ == points@.subrange(fallen as int, i as int),
            decreases points.len() - i,
        {
            if i < bytes {
                space.corrupt(points[i]);
                proof {
                    fallen = fallen + 1;
                }
                assert(remaining_bytes@ =~= points@.subrange(fallen as int, i + 1));
            } else {
                remaining_bytes.push(points[i]);
                assert(remaining_bytes@ =~= points@.subrange(fallen as int, i + 1));
            }
            i += 1;
        }
        assert(remaining_bytes@ =~= points@.skip(fallen as int));
        Some((space, remaining_bytes))
    }
}

/// The rows once more bytes have fallen after the first.
proof fn lemma_rows_after_more(rows: Seq<Seq<char>>, bytes: Seq<Point>, first: nat, more: nat)
    requires
        first + more <= bytes.len(),
    ensures
        rows_after(rows_after(rows, bytes, first), bytes.skip(first as int), more) == rows_after(
            rows,
            bytes,
            first + more,
        ),
    decreases more,
{
    if more > 0 {
        lemma_rows_after_more(rows, bytes, first, (more - 1) as nat);
        assert(bytes.skip(first as int)[more - 1] == bytes[first + more - 1]);
    }
}

/// How many of the bytes fall before the way is looked for.
pub open spec fn fallen(points: Seq<Point>, number_of_bytes: usize) -> nat {
    if number_of_bytes < points.len() {
        number_of_bytes as nat
    } else {
        points.len()
    }
}

/// The rows of a space of `size` + 1 rows and columns once the first `n`
/// of the points have fallen.
pub open spec fn space_after(size: usize, points: Seq<Point>, n: nat) -> Seq<Seq<char>> {
    rows_after(blank_rows((size + 1) as nat, (size + 1) as nat), points, n)
}

/// The corner of the space from which the way starts.
pub open spec fn first_corner() -> Point {
    Point { x: 0, y: 0 }
}

/// The corner of the space at which the way ends.
pub open spec fn last_corner(size: usize) -> Point {
    Point { x: size as i8, y: size as i8 }
}

/// Whether the two are the length of a shortest way between the corners
/// when the first bytes have fallen, and the first of the other bytes that
/// leaves no way.
pub open spec fn is_answer(
    input: Seq<char>,
    number_of_bytes: usize,
    size: usize,
    distance: usize,
    byte: Point,
) -> bool {
    let points = points_of(lines_of(input), lines_of(input).len());
    let first = fallen(points, number_of_bytes);
    &&& size < MAX_SIDE
    &&& forall|i: int| 0 <= i < lines_of(input).len() ==> is_point(#[trigger] lines_of(input)[i])
    &&& exists|path: Seq<Point>| #[trigger]
        is_shortest_way(
            space_after(size, points, first),
            first_corner(),
            last_corner(size),
            distance as nat,
            path,
        )
    &&& exists|n: int|
        first <= n < points.len() && points[n] == byte && !has_way(
            #[trigger] space_after(size, points, (n + 1) as nat),
            first_corner(),
            last_corner(size),
        ) && forall|fewer: nat|
            first <= fewer <= n ==> has_way(
                #[trigger] space_after(size, points, fewer),
                first_corner(),
                last_corner(size),
            )
}

/// The length of the shortest way from the first corner of the space to
/// the last when the first bytes have fallen, and the first of the other
/// bytes that leaves no way; nothing where the text cannot be read, where
/// the space is too large, where there is no way to begin with, or where
/// no byte blocks it.
pub fn solve(input: &str, number_of_bytes: usize, size: usize) -> (result: Option<(usize, Point)>)
    ensures
        result matches Some(found) ==> is_answer(input@, number_of_bytes, size, found.0, found.1),
        result is None ==> {
            let points = points_of(lines_of(input@), lines_of(input@).len());
            let first = fallen(points, number_of_bytes);
            ||| size >= MAX_SIDE
            ||| !(forall|i: int|
                0 <= i < lines_of(input@).len() ==> is_point(#[trigger] lines_of(input@)[i]))
            ||| !has_way(space_after(size, points, first), first_corner(), last_corner(size))
            ||| forall|fewer: nat|
                first <= fewer <= points.len() ==> has_way(
                    #[trigger] space_after(size, points, fewer),
                    first_corner(),
                    last_corner(size),
                )
        },
{
    let (mut memory_space, next_bytes) = match MemorySpace::parse(input, number_of_bytes, size) {
        None => {
            return None;
        },
        Some(found) => found,
    };
    let ghost points = points_of(lines_of(input@), lines_of(input@).len());
    let ghost first = fallen(points, number_of_bytes);
    let ghost rows = memory_space.rows();
    let ghost others = next_bytes@;
    let start = Point::new(0, 0);
    let end = Point::new(size as i8, size as i8);
    let (part1, safe_path) = match memory_space.find_path(&start, &end) {
        None => {
            return None;
        },
        Some(found) => found,
    };
    let ghost way = safe_path@;
    proof {
        let route = choose|route: Seq<char>| #[trigger]
            is_shortest(
                with_place(memory_space.rows(), start.x as int, start.y as int, '.'),
                cell_of(start),
                cell_of(end),
                route,
            ) && cells(safe_path@) == places(cell_of(start), route);
        assert(leads(memory_space.rows(), start, end, route));
        assert(start == first_corner() && end == last_corner(size));
        assert(rows == space_after(size, points, first));
        assert(is_shortest_way(
            space_after(size, points, first),
            first_corner(),
            last_corner(size),
            part1 as nat,
            safe_path@,
        ));
        assert forall|more: nat| more <= others.len() implies #[trigger] rows_after(
            rows,
            others,
            more,
        ) == space_after(size, points, first + more) by {
            lemma_rows_after_more(
                blank_rows((size + 1) as nat, (size + 1) as nat),
                points,
                first,
                more,
            );
        }
    }
    match memory_space.find_blockade(safe_path, &start, &end, next_bytes) {
        None => {
            proof {
                assert forall|fewer: nat| first <= fewer <= points.len() implies has_way(
                    #[trigger] space_after(size, points, fewer),
                    first_corner(),
                    last_corner(size),
                ) by {
                    let more = (fewer - first) as nat;
                    assert(has_way(rows_after(rows, others, more), start, end));
                }
            }
            None
        },
        Some(byte) => {
            proof {
                let k = choose|k: int|
                    0 <= k < others.len() && others[k] == byte && memory_space.rows()
                        == #[trigger] rows_after(rows, others, (k + 1) as nat) && !has_way(
                        memory_space.rows(),
                        start,
                        end,
                    ) && forall|fewer: nat|
                        fewer <= k ==> has_way(#[trigger] rows_after(rows, others, fewer), start, end);
                let n = first + k;
                assert(points[n] == byte);
                assert(rows_after(rows, others, (k + 1) as nat) == space_after(
                    size,
                    points,
                    (n + 1) as nat,
                ));
                assert forall|fewer: nat| first <= fewer <= n implies has_way(
                    #[trigger] space_after(size, points, fewer),
                    first_corner(),
                    last_corner(size),
                ) by {
                    let more = (fewer - first) as nat;
                    assert(has_way(rows_after(rows, others, more), start, end));
                }
                assert(start == first_corner() && end == last_corner(size));
                assert(is_shortest_way(
                    space_after(size, points, first),
                    first_corner(),
                    last_corner(size),
                    part1 as nat,
                    way,
                ));
                assert(!has_way(
                    space_after(size, points, (n + 1) as nat),
                    first_corner(),
                    last_corner(size),
                ));
                assert(first <= n < points.len());
                assert(is_answer(input@, number_of_bytes, size, part1, byte));
            }
            Some((part1, byte))
        },
    }
}

} // verus!
