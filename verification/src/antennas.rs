//! A map of antennas, each with a name of one character: every two
//! antennas of the same name throw antinodes onto the line through them.

use crate::text::{lines, lines_of, views};
use std::collections::HashSet;
use vstd::prelude::*;

verus! {

broadcast use vstd::std_specs::hash::group_hash_axioms;

/// A place on the map, or beside it.
#[derive(Clone, Copy, Debug, PartialEq, Eq)]
pub struct Point {
    pub x: i16,
    pub y: i16,
}

/// The antennas of a map, those of one name together, and the size of the
/// map.
#[derive(Debug)]
pub struct AntennaMap {
    pub antenna_sets: Vec<Vec<Point>>,
    pub width: i16,
    pub height: i16,
}

/// The number that stands for a place in a set of places.
pub open spec fn key_of(x: int, y: int) -> u32 {
    (x * 65536 + y) as u32
}

/// Whether no place stands twice among the antennas.
pub open spec fn distinct(antennas: Seq<Point>) -> bool {
    forall|i: int, j: int| 0 <= i < j < antennas.len() ==> antennas[i] != antennas[j]
}

/// Two places on the map with the same number are the same place.
pub proof fn lemma_keys_differ(x: int, y: int, u: int, v: int)
    requires
        0 <= x < 32768 && 0 <= y < 32768,
        0 <= u < 32768 && 0 <= v < 32768,
        key_of(x, y) == key_of(u, v),
    ensures
        x == u && y == v,
{
}

impl AntennaMap {
    /// Whether the place lies on the map.
    pub open spec fn inside(&self, x: int, y: int) -> bool {
        0 <= x < self.width && 0 <= y < self.height
    }

    /// Whether no antenna stands twice in a set.
    pub open spec fn wf(&self) -> bool {
        forall|s: int| 0 <= s < self.antenna_sets.len() ==> distinct(#[trigger] self.antenna_sets[s]@)
    }

    /// Whether `k` stands for the place as far beyond `b` as `b` is from
    /// `a`, and that place lies on the map.
    pub open spec fn is_beyond(&self, a: Point, b: Point, k: u32) -> bool {
        self.inside(2 * b.x - a.x, 2 * b.y - a.y) && k == key_of(2 * b.x - a.x, 2 * b.y - a.y)
    }

    /// Whether `k` stands for the antinode of the antennas `a` and `b` on
    /// the one side or on the other.
    pub open spec fn is_twice_node_of(&self, antennas: Seq<Point>, a: int, b: int, k: u32) -> bool {
        self.is_beyond(antennas[a], antennas[b], k) || self.is_beyond(antennas[b], antennas[a], k)
    }

    /// Whether `k` stands for an antinode at twice the distance of two of
    /// the antennas that come before the antennas `upto_a` and `upto_b`,
    /// as each antenna is taken in turn with each that follows it.
    pub open spec fn is_twice_node_before(
        &self,
        antennas: Seq<Point>,
        upto_a: int,
        upto_b: int,
        k: u32,
    ) -> bool {
        exists|a: int, b: int|
            0 <= a < b < antennas.len() && (a < upto_a || (a == upto_a && b < upto_b))
                && #[trigger] self.is_twice_node_of(antennas, a, b, k)
    }

    /// Whether `k` stands for an antinode of two of the antennas at twice
    /// the distance: a place on the map as far beyond the one as the other
    /// is from it.
    pub open spec fn is_twice_node(&self, antennas: Seq<Point>, k: u32) -> bool {
        self.is_twice_node_before(antennas, antennas.len() as int, 0, k)
    }

    /// Whether the `j`th step from `from` lies on the map.
    pub open spec fn step_inside(&self, from: Point, dx: int, dy: int, j: int) -> bool {
        self.inside(from.x + j * dx, from.y + j * dy)
    }

    /// Whether `k` stands for the place `n` steps from `from`, and that
    /// place and all the steps before it lie on the map.
    pub open spec fn on_ray(&self, from: Point, dx: int, dy: int, n: int, k: u32) -> bool {
        &&& n >= 0
        &&& forall|j: int| 0 <= j <= n ==> #[trigger] self.step_inside(from, dx, dy, j)
        &&& k == key_of(from.x + n * dx, from.y + n * dy)
    }

    /// Whether `k` stands for a place that is reached from `from` over the
    /// map in steps of this length.
    pub open spec fn is_on_ray(&self, from: Point, dx: int, dy: int, k: u32) -> bool {
        exists|n: int| #[trigger] self.on_ray(from, dx, dy, n, k)
    }

    /// Whether `k` stands for a place that is reached from the antenna `b`
    /// over the map in steps as long as from `a` to `b`, or from `a` in
    /// such steps the other way.
    pub open spec fn is_any_node_of(&self, antennas: Seq<Point>, a: int, b: int, k: u32) -> bool {
        self.is_on_ray(
            antennas[b],
            antennas[b].x - antennas[a].x,
            antennas[b].y - antennas[a].y,
            k,
        ) || self.is_on_ray(
            antennas[a],
            antennas[a].x - antennas[b].x,
            antennas[a].y - antennas[b].y,
            k,
        )
    }

    /// Whether `k` stands for an antinode at any distance of two of the
    /// antennas that come before the antennas `upto_a` and `upto_b`, as
    /// each antenna is taken in turn with each that follows it.
    pub open spec fn is_any_node_before(
        &self,
        antennas: Seq<Point>,
        upto_a: int,
        upto_b: int,
        k: u32,
    ) -> bool {
        exists|a: int, b: int|
            0 <= a < b < antennas.len() && (a < upto_a || (a == upto_a && b < upto_b))
                && #[trigger] self.is_any_node_of(antennas, a, b, k)
    }

    /// Whether `k` stands for an antinode of two of the antennas at any
    /// distance.
    pub open spec fn is_any_node(&self, antennas: Seq<Point>, k: u32) -> bool {
        self.is_any_node_before(antennas, antennas.len() as int, 0, k)
    }

    /// The antinodes at twice the distance of the first `n` sets.
    pub open spec fn twice_nodes(&self, n: int) -> Set<u32> {
        Set::new(
            |k: u32|
                exists|s: int|
                    0 <= s < n && s < self.antenna_sets.len() && #[trigger] self.is_twice_node(
                        self.antenna_sets[s]@,
                        k,
                    ),
        )
    }

    /// The antinodes at any distance of the first `n` sets.
    pub open spec fn any_nodes(&self, n: int) -> Set<u32> {
        Set::new(
            |k: u32|
                exists|s: int|
                    0 <= s < n && s < self.antenna_sets.len() && #[trigger] self.is_any_node(
                        self.antenna_sets[s]@,
                        k,
                    ),
        )
    }

    /// Whether the place lies on the map.
    pub fn is_within_bounds(&self, x: i32, y: i32) -> (within: bool)
        ensures
            within == self.inside(x as int, y as int),
    {
        x >= 0 && y >= 0 && x < self.width as i32 && y < self.height as i32
    }

    /// Puts the place as far beyond `b` as `b` is from `a` into the
    /// register, where it lies on the map.
    fn put_beyond(&self, a: Point, b: Point, antinode_register: &mut HashSet<u32>)
        ensures
            forall|k: u32|
                final(antinode_register)@.contains(k) <==> old(antinode_register)@.contains(k)
                    || self.is_beyond(a, b, k),
    {
        let x = 2 * (b.x as i32) - a.x as i32;
        let y = 2 * (b.y as i32) - a.y as i32;
        if self.is_within_bounds(x, y) {
            antinode_register.insert(x as u32 * 65536 + y as u32);
        }
    }

    /// Puts the antinodes at twice the distance of each two of the antennas
    /// into the register.
    pub fn find_antinodes_at_twice_distance(
        &self,
        antennas: &Vec<Point>,
        antinode_register: &mut HashSet<u32>,
    )
        ensures
            forall|k: u32|
                final(antinode_register)@.contains(k) <==> old(antinode_register)@.contains(k)
                    || self.is_twice_node(antennas@, k),
    {
        let count = antennas.len();
        let mut index_a: usize = 0;
        while index_a < count
            invariant
                count == antennas.len(),
                index_a <= count,
                forall|k: u32|
                    antinode_register@.contains(k) <==> old(antinode_register)@.contains(k)
                        || self.is_twice_node_before(antennas@, index_a as int, 0, k),
            decreases count - index_a,
        {
            let antenna_a = antennas[index_a];
            let mut index_b: usize = index_a + 1;
            proof {
                assert forall|k: u32|
                    self.is_twice_node_before(antennas@, index_a as int, 0, k)
                        == self.is_twice_node_before(antennas@, index_a as int, index_b as int, k) by {
                    if self.is_twice_node_before(antennas@, index_a as int, index_b as int, k) {
                        let (a, b) = choose|a: int, b: int|
                            0 <= a < b < antennas.len() && (a < index_a || (a == index_a && b
                                < index_b)) && #[trigger] self.is_twice_node_of(antennas@, a, b, k);
                        assert(self.is_twice_node_of(antennas@, a, b, k));
                    }
                }
            }
            while index_b < count
                invariant
                    count == antennas.len(),
                    index_a < index_b <= count,
                    antenna_a == antennas[index_a as int],
                    forall|k: u32|
                        antinode_register@.contains(k) <==> old(antinode_register)@.contains(k)
                            || self.is_twice_node_before(
                            antennas@,
                            index_a as int,
                            index_b as int,
                            k,
                        ),
                decreases count - index_b,
            {
                let antenna_b = antennas[index_b];
                let ghost before = antinode_register@;
                self.put_beyond(antenna_a, antenna_b, antinode_register);
                self.put_beyond(antenna_b, antenna_a, antinode_register);
                proof {
                    assert forall|k: u32|
                        self.is_twice_node_before(antennas@, index_a as int, index_b + 1, k) == (
                        self.is_twice_node_before(antennas@, index_a as int, index_b as int, k)
                            || self.is_twice_node_of(antennas@, index_a as int, index_b as int, k)) by {
                        if self.is_twice_node_before(antennas@, index_a as int, index_b + 1, k) {
                            let (a, b) = choose|a: int, b: int|
                                0 <= a < b < antennas.len() && (a < index_a || (a == index_a && b
                                    < index_b + 1)) && #[trigger] self.is_twice_node_of(
                                    antennas@,
                                    a,
                                    b,
                                    k,
                                );
                            assert(self.is_twice_node_of(antennas@, a, b, k));
                        }
                        if self.is_twice_node_before(antennas@, index_a as int, index_b as int, k) {
                            let (a, b) = choose|a: int, b: int|
                                0 <= a < b < antennas.len() && (a < index_a || (a == index_a && b
                                    < index_b)) && #[trigger] self.is_twice_node_of(
                                    antennas@,
                                    a,
                                    b,
                                    k,
                                );
                            assert(self.is_twice_node_of(antennas@, a, b, k));
                        }
                    }
                }
                index_b += 1;
            }
            proof {
                assert forall|k: u32|
                    self.is_twice_node_before(antennas@, index_a + 1, 0, k)
                        == self.is_twice_node_before(antennas@, index_a as int, count as int, k) by {
                    if self.is_twice_node_before(antennas@, index_a + 1, 0, k) {
                        let (a, b) = choose|a: int, b: int|
                            0 <= a < b < antennas.len() && (a < index_a + 1 || (a == index_a + 1 && b
                                < 0)) && #[trigger] self.is_twice_node_of(antennas@, a, b, k);
                        assert(self.is_twice_node_of(antennas@, a, b, k));
                    }
                    if self.is_twice_node_before(antennas@, index_a as int, count as int, k) {
                        let (a, b) = choose|a: int, b: int|
                            0 <= a < b < antennas.len() && (a < index_a || (a == index_a && b
                                < count)) && #[trigger] self.is_twice_node_of(antennas@, a, b, k);
                        assert(self.is_twice_node_of(antennas@, a, b, k));
                    }
                }
            }
            index_a += 1;
        }
    }

    /// How many places of the map are antinodes at twice the distance of
    /// two antennas of the same name.
    pub fn count_antinodes_at_twice_distance(&self) -> (count: usize)
        ensures
            count == self.twice_nodes(self.antenna_sets.len() as int).len(),
    {
        let mut unique_antinodes: HashSet<u32> = HashSet::new();
        let mut s: usize = 0;
        assert(unique_antinodes@ =~= self.twice_nodes(0));
        while s < self.antenna_sets.len()
            invariant
                s <= self.antenna_sets.len(),
                unique_antinodes@ == self.twice_nodes(s as int),
            decreases self.antenna_sets.len() - s,
        {
            self.find_antinodes_at_twice_distance(&self.antenna_sets[s], &mut unique_antinodes);
            assert(unique_antinodes@ =~= self.twice_nodes(s + 1)) by {
                assert forall|k: u32| self.twice_nodes(s + 1).contains(k) implies self.twice_nodes(
                    s as int,
                ).contains(k) || self.is_twice_node(self.antenna_sets[s as int]@, k) by {
                    let t = choose|t: int|
                        0 <= t < s + 1 && t < self.antenna_sets.len() && #[trigger] self.is_twice_node(
                            self.antenna_sets[t]@,
                            k,
                        );
                    if t < s {
                        assert(self.twice_nodes(s as int).contains(k));
                    }
                }
            }
            s += 1;
        }
        unique_antinodes.len()
    }

    /// How many steps are left on the map at most.
    pub open spec fn steps_left(&self, x: int, y: int, dx: int, dy: int) -> int {
        if !self.inside(x, y) {
            0
        } else if dx > 0 {
            self.width - x
        } else if dx < 0 {
            x + 1
        } else if dy > 0 {
            self.height - y
        } else {
            y + 1
        }
    }

    /// Puts the places that are reached from `from` over the map in steps
    /// of this length into the register.
    fn put_ray(&self, from: Point, dx: i32, dy: i32, antinode_register: &mut HashSet<u32>)
        requires
            dx != 0 || dy != 0,
            -65536 < dx < 65536,
            -65536 < dy < 65536,
        ensures
            forall|k: u32|
                final(antinode_register)@.contains(k) <==> old(antinode_register)@.contains(k)
                    || self.is_on_ray(from, dx as int, dy as int, k),
    {
        let mut x: i32 = from.x as i32;
        let mut y: i32 = from.y as i32;
        let ghost mut n: int = 0;
        while self.is_within_bounds(x, y)
            invariant
                dx != 0 || dy != 0,
                -65536 < dx < 65536,
                -65536 < dy < 65536,
                n >= 0,
                x == from.x + n * dx,
                y == from.y + n * dy,
                -65536 < x < 98304,
                -65536 < y < 98304,
                forall|j: int| 0 <= j < n ==> #[trigger] self.step_inside(from, dx as int, dy as int, j),
                forall|k: u32|
                    antinode_register@.contains(k) <==> old(antinode_register)@.contains(k) || (
                    exists|m: int|
                        m < n && #[trigger] self.on_ray(from, dx as int, dy as int, m, k)),
            decreases self.steps_left(x as int, y as int, dx as int, dy as int),
        {
            let ghost before = antinode_register@;
            let key = x as u32 * 65536 + y as u32;
            antinode_register.insert(key);
            proof {
                assert(self.step_inside(from, dx as int, dy as int, n));
                assert(self.on_ray(from, dx as int, dy as int, n, key));
                assert((n + 1) * dx == n * dx + dx) by (nonlinear_arith);
                assert((n + 1) * dy == n * dy + dy) by (nonlinear_arith);
                assert forall|k: u32|
                    antinode_register@.contains(k) <==> old(antinode_register)@.contains(k) || (
                    exists|m: int|
                        m < n + 1 && #[trigger] self.on_ray(from, dx as int, dy as int, m, k)) by {
                    if exists|m: int|
                        m < n + 1 && #[trigger] self.on_ray(from, dx as int, dy as int, m, k) {
                        let m = choose|m: int|
                            m < n + 1 && #[trigger] self.on_ray(from, dx as int, dy as int, m, k);
                        if m == n {
                            assert(k == key);
                        }
                    }
                }
            }
            x = x + dx;
            y = y + dy;
            proof {
                n = n + 1;
            }
        }
        proof {
            assert(!self.step_inside(from, dx as int, dy as int, n));
            assert forall|k: u32|
                self.is_on_ray(from, dx as int, dy as int, k) == (exists|m: int|
                    m < n && #[trigger] self.on_ray(from, dx as int, dy as int, m, k)) by {
                if self.is_on_ray(from, dx as int, dy as int, k) {
                    let m = choose|m: int| #[trigger] self.on_ray(from, dx as int, dy as int, m, k);
                    if m >= n {
                        assert(self.step_inside(from, dx as int, dy as int, n));
                    }
                }
            }
        }
    }

    /// Puts the antinodes at any distance of each two of the antennas, of
    /// which none stands twice, into the register.
    pub fn find_antinodes_at_any_distance(
        &self,
        antennas: &Vec<Point>,
        antinode_register: &mut HashSet<u32>,
    )
        requires
            distinct(antennas@),
        ensures
            forall|k: u32|
                final(antinode_register)@.contains(k) <==> old(antinode_register)@.contains(k)
                    || self.is_any_node(antennas@, k),
    {
        let count = antennas.len();
        let mut index_a: usize = 0;
        while index_a < count
            invariant
                count == antennas.len(),
                index_a <= count,
                distinct(antennas@),
                forall|k: u32|
                    antinode_register@.contains(k) <==> old(antinode_register)@.contains(k)
                        || self.is_any_node_before(antennas@, index_a as int, 0, k),
            decreases count - index_a,
        {
            let antenna_a = antennas[index_a];
            let mut index_b: usize = index_a + 1;
            proof {
                assert forall|k: u32|
                    self.is_any_node_before(antennas@, index_a as int, 0, k)
                        == self.is_any_node_before(antennas@, index_a as int, index_b as int, k) by {
                    if self.is_any_node_before(antennas@, index_a as int, index_b as int, k) {
                        let (a, b) = choose|a: int, b: int|
                            0 <= a < b < antennas.len() && (a < index_a || (a == index_a && b
                                < index_b)) && #[trigger] self.is_any_node_of(antennas@, a, b, k);
                        assert(self.is_any_node_of(antennas@, a, b, k));
                    }
                }
            }
            while index_b < count
                invariant
                    count == antennas.len(),
                    index_a < index_b <= count,
                    distinct(antennas@),
                    antenna_a == antennas[index_a as int],
                    forall|k: u32|
                        antinode_register@.contains(k) <==> old(antinode_register)@.contains(k)
                            || self.is_any_node_before(
                            antennas@,
                            index_a as int,
                            index_b as int,
                            k,
                        ),
                decreases count - index_b,
            {
                let antenna_b = antennas[index_b];
                assert(antenna_a != antenna_b);
                let dx = antenna_b.x as i32 - antenna_a.x as i32;
                let dy = antenna_b.y as i32 - antenna_a.y as i32;
                self.put_ray(antenna_b, dx, dy, antinode_register);
                self.put_ray(antenna_a, -dx, -dy, antinode_register);
                proof {
                    assert forall|k: u32|
                        self.is_any_node_before(antennas@, index_a as int, index_b + 1, k) == (
                        self.is_any_node_before(antennas@, index_a as int, index_b as int, k)
                            || self.is_any_node_of(antennas@, index_a as int, index_b as int, k)) by {
                        if self.is_any_node_before(antennas@, index_a as int, index_b + 1, k) {
                            let (a, b) = choose|a: int, b: int|
                                0 <= a < b < antennas.len() && (a < index_a || (a == index_a && b
                                    < index_b + 1)) && #[trigger] self.is_any_node_of(
                                    antennas@,
                                    a,
                                    b,
                                    k,
                                );
                            assert(self.is_any_node_of(antennas@, a, b, k));
                        }
                        if self.is_any_node_before(antennas@, index_a as int, index_b as int, k) {
                            let (a, b) = choose|a: int, b: int|
                                0 <= a < b < antennas.len() && (a < index_a || (a == index_a && b
                                    < index_b)) && #[trigger] self.is_any_node_of(
                                    antennas@,
                                    a,
                                    b,
                                    k,
                                );
                            assert(self.is_any_node_of(antennas@, a, b, k));
                        }
                    }
                }
                index_b += 1;
            }
            proof {
                assert forall|k: u32|
                    self.is_any_node_before(antennas@, index_a + 1, 0, k)
                        == self.is_any_node_before(antennas@, index_a as int, count as int, k) by {
                    if self.is_any_node_before(antennas@, index_a + 1, 0, k) {
                        let (a, b) = choose|a: int, b: int|
                            0 <= a < b < antennas.len() && (a < index_a + 1 || (a == index_a + 1 && b
                                < 0)) && #[trigger] self.is_any_node_of(antennas@, a, b, k);
                        assert(self.is_any_node_of(antennas@, a, b, k));
                    }
                    if self.is_any_node_before(antennas@, index_a as int, count as int, k) {
                        let (a, b) = choose|a: int, b: int|
                            0 <= a < b < antennas.len() && (a < index_a || (a == index_a && b
                                < count)) && #[trigger] self.is_any_node_of(antennas@, a, b, k);
                        assert(self.is_any_node_of(antennas@, a, b, k));
                    }
                }
            }
            index_a += 1;
        }
    }

    /// How many places of the map are antinodes at any distance of two
    /// antennas of the same name.
    pub fn count_antinodes_at_any_distance(&self) -> (count: usize)
        requires
            self.wf(),
        ensures
            count == self.any_nodes(self.antenna_sets.len() as int).len(),
    {
        let mut unique_antinodes: HashSet<u32> = HashSet::new();
        let mut s: usize = 0;
        assert(unique_antinodes@ =~= self.any_nodes(0));
        while s < self.antenna_sets.len()
            invariant
                s <= self.antenna_sets.len(),
                self.wf(),
                unique_antinodes@ == self.any_nodes(s as int),
            decreases self.antenna_sets.len() - s,
        {
            self.find_antinodes_at_any_distance(&self.antenna_sets[s], &mut unique_antinodes);
            assert(unique_antinodes@ =~= self.any_nodes(s + 1)) by {
                assert forall|k: u32| self.any_nodes(s + 1).contains(k) implies self.any_nodes(
                    s as int,
                ).contains(k) || self.is_any_node(self.antenna_sets[s as int]@, k) by {
                    let t = choose|t: int|
                        0 <= t < s + 1 && t < self.antenna_sets.len() && #[trigger] self.is_any_node(
                            self.antenna_sets[t]@,
                            k,
                        );
                    if t < s {
                        assert(self.any_nodes(s as int).contains(k));
                    }
                }
            }
            s += 1;
        }
        unique_antinodes.len()
    }
}

/// The antennas named `c` in the first `y` rows and among the first `x`
/// characters of the row after them, in the order of reading.
pub open spec fn positions(rows: Seq<Seq<char>>, c: char, y: nat, x: nat) -> Seq<Point>
    decreases y, x,
{
    if x > 0 {
        let before = positions(rows, c, y, (x - 1) as nat);
        if rows[y as int][x - 1] == c {
            before.push(Point { x: (x - 1) as i16, y: y as i16 })
        } else {
            before
        }
    } else if y > 0 {
        positions(rows, c, (y - 1) as nat, rows[y - 1].len())
    } else {
        Seq::empty()
    }
}

/// The antennas named `c` in the rows.
pub open spec fn all_positions(rows: Seq<Seq<char>>, c: char) -> Seq<Point> {
    positions(rows, c, rows.len(), 0)
}

/// Whether the rows can be a map: there are no more than 32767 of them, and
/// none is longer than that.
pub open spec fn is_map(rows: Seq<Seq<char>>) -> bool {
    rows.len() <= 32767 && forall|y: int| 0 <= y < rows.len() ==> (#[trigger] rows[y]).len() <= 32767
}

/// Whether the sets are the antennas of the rows by their names: each set
/// holds the antennas of one name, and each name but the dot, which stands
/// for no antenna, has its set.
pub open spec fn charted(rows: Seq<Seq<char>>, names: Seq<char>, sets: Seq<Vec<Point>>) -> bool {
    &&& names.len() == sets.len()
    &&& names.no_duplicates()
    &&& forall|i: int|
        #![trigger sets[i]]
        #![trigger names[i]]
        0 <= i < names.len() ==> names[i] != '.' && sets[i]@ == all_positions(rows, names[i])
            && sets[i].len() > 0
    &&& forall|c: char| c != '.' && all_positions(rows, c).len() > 0 ==> names.contains(c)
}

/// Whether the place comes before the place (`x`, `y`) in the order of
/// reading.
pub open spec fn comes_before(p: Point, y: int, x: int) -> bool {
    0 <= p.x && 0 <= p.y && (p.y < y || (p.y == y && p.x < x))
}

/// The antennas of a name stand at different places, each before the place
/// up to which the rows were read.
pub proof fn lemma_positions_differ(rows: Seq<Seq<char>>, c: char, y: nat, x: nat)
    requires
        is_map(rows),
        y < rows.len() && x <= rows[y as int].len() || y == rows.len() && x == 0,
    ensures
        distinct(positions(rows, c, y, x)),
        forall|j: int|
            0 <= j < positions(rows, c, y, x).len() ==> comes_before(
                #[trigger] positions(rows, c, y, x)[j],
                y as int,
                x as int,
            ),
    decreases y, x,
{
    if x > 0 {
        lemma_positions_differ(rows, c, y, (x - 1) as nat);
    } else if y > 0 {
        lemma_positions_differ(rows, c, (y - 1) as nat, rows[y - 1].len());
    }
}

/// The place of the name among the names.
fn find_name(names: &Vec<char>, c: char) -> (found: Option<usize>)
    ensures
        match found {
            Some(i) => i < names.len() && names[i as int] == c,
            None => !names@.contains(c),
        },
{
    let mut i: usize = 0;
    while i < names.len()
        invariant
            i <= names.len(),
            forall|j: int| 0 <= j < i ==> names[j] != c,
        decreases names.len() - i,
    {
        if names[i] == c {
            return Some(i);
        }
        i += 1;
    }
    None
}

/// Whether the sets hold the antennas up to the place (`x`, `y`) by their
/// names.
pub open spec fn charted_upto(
    rows: Seq<Seq<char>>,
    names: Seq<char>,
    sets: Seq<Vec<Point>>,
    y: nat,
    x: nat,
) -> bool {
    &&& names.len() == sets.len()
    &&& names.no_duplicates()
    &&& forall|i: int|
        #![trigger sets[i]]
        #![trigger names[i]]
        0 <= i < names.len() ==> names[i] != '.' && sets[i]@ == positions(rows, names[i], y, x)
            && sets[i].len() > 0
    &&& forall|c: char| c != '.' && positions(rows, c, y, x).len() > 0 ==> names.contains(c)
}

impl AntennaMap {
    /// The map that the text draws: a character but the dot is an antenna
    /// with that name. The map is as high as the text has lines and as wide
    /// as its last line is long. Nothing where there are more than 32767
    /// lines or characters in a line.
    pub fn from_string(input: &str) -> (result: Option<AntennaMap>)
        ensures
            result is Some <==> is_map(lines_of(input@)),
            result matches Some(map) ==> {
                &&& map.wf()
                &&& map.height == lines_of(input@).len()
                &&& map.width == if lines_of(input@).len() == 0 {
                    0
                } else {
                    lines_of(input@).last().len()
                }
                &&& exists|names: Seq<char>| charted(lines_of(input@), names, map.antenna_sets@)
            },
    {
        let all = lines(input);
        let ghost rows = views(all@);
        let mut names: Vec<char> = Vec::new();
        let mut sets: Vec<Vec<Point>> = Vec::new();
        let mut x: i16 = 0;
        let mut y: i16 = 0;
        let mut row: usize = 0;
        while row < all.len()
            invariant
                row <= all.len(),
                row == y,
                rows == views(all@),
                rows == lines_of(input@),
                forall|v: int| 0 <= v < row ==> (#[trigger] rows[v]).len() <= 32767,
                x == if row == 0 {
                    0
                } else {
                    rows[row - 1].len()
                },
                charted_upto(rows, names@, sets@, row as nat, 0),
            decreases all.len() - row,
        {
            if y == 32767 {
                return None;
            }
            let line = &all[row];
            assert(rows[row as int] == line@);
            x = 0;
            let mut column: usize = 0;
            while column < line.len()
                invariant
                    column <= line.len(),
                    column == x,
                    row < all.len(),
                    row == y,
                    y < 32767,
                    rows == views(all@),
                    rows == lines_of(input@),
                    rows[row as int] == line@,
                    forall|v: int| 0 <= v < row ==> (#[trigger] rows[v]).len() <= 32767,
                    charted_upto(rows, names@, sets@, row as nat, column as nat),
                decreases line.len() - column,
            {
                if x == 32767 {
                    assert(rows[row as int].len() > 32767);
                    return None;
                }
                let c = line[column];
                let ghost old_names = names@;
                let ghost old_sets = sets@;
                let ghost here = Point { x, y };
                let ghost next = (column + 1) as nat;
                assert(rows[row as int][column as int] == c);
                assert(forall|d: char|
                    d != c ==> #[trigger] positions(rows, d, row as nat, next) == positions(
                        rows,
                        d,
                        row as nat,
                        column as nat,
                    ));
                assert(positions(rows, c, row as nat, next) == positions(
                    rows,
                    c,
                    row as nat,
                    column as nat,
                ).push(here));
                if c != '.' {
                    match find_name(&names, c) {
                        Some(at) => {
                            let mut set = sets.remove(at);
                            set.push(Point { x, y });
                            sets.insert(at, set);
                            proof {
                                assert(sets@[at as int]@ == old_sets[at as int]@.push(here));
                                assert forall|i: int|
                                    #![trigger sets@[i]]
                                    #![trigger names@[i]]
                                    0 <= i < names.len() implies names@[i] != '.' && sets@[i]@
                                    == positions(rows, names@[i], row as nat, next) && sets@[i].len()
                                    > 0 by {
                                    if i != at {
                                        assert(sets@[i] == old_sets[i]);
                                        assert(names[i] != c);
                                    }
                                }
                            }
                        },
                        None => {
                            let mut set: Vec<Point> = Vec::new();
                            set.push(Point { x, y });
                            names.push(c);
                            sets.push(set);
                            proof {
                                assert(positions(rows, c, row as nat, column as nat).len() == 0);
                                assert(sets@[old_sets.len() as int]@ =~= positions(
                                    rows,
                                    c,
                                    row as nat,
                                    column as nat,
                                ).push(here));
                                assert forall|i: int|
                                    #![trigger sets@[i]]
                                    #![trigger names@[i]]
                                    0 <= i < names.len() implies names@[i] != '.' && sets@[i]@
                                    == positions(rows, names@[i], row as nat, next) && sets@[i].len()
                                    > 0 by {
                                    if i < old_sets.len() {
                                        assert(sets@[i] == old_sets[i]);
                                        assert(names[i] == old_names[i]);
                                        assert(old_names.contains(old_names[i]));
                                    }
                                }
                                assert(names@ == old_names.push(c));
                                assert forall|i: int, j: int|
                                    0 <= i < names.len() && 0 <= j < names.len() && i != j implies names[i]
                                    != names[j] by {
                                    if i < old_names.len() {
                                        assert(old_names.contains(old_names[i]));
                                    }
                                    if j < old_names.len() {
                                        assert(old_names.contains(old_names[j]));
                                    }
                                }
                            }
                        },
                    }
                }
                proof {
                    assert forall|d: char| d != '.' && positions(rows, d, row as nat, next).len()
                        > 0 implies names@.contains(d) by {
                        if d == c {
                            if old_names.contains(c) {
                                let i = choose|i: int| 0 <= i < old_names.len() && old_names[i] == c;
                                assert(names@[i] == c);
                            } else {
                                assert(names@[old_names.len() as int] == c);
                            }
                        } else {
                            assert(old_names.contains(d));
                            let i = choose|i: int| 0 <= i < old_names.len() && old_names[i] == d;
                            assert(names@[i] == d);
                        }
                    }
                }
                x += 1;
                column += 1;
            }
            proof {
                assert(forall|d: char| #[trigger]
                    positions(rows, d, (row + 1) as nat, 0) == positions(
                        rows,
                        d,
                        row as nat,
                        rows[row as int].len(),
                    ));
            }
            y += 1;
            row += 1;
        }
        proof {
            assert(rows.len() == all.len());
            assert(charted(rows, names@, sets@));
            assert forall|s: int| 0 <= s < sets.len() implies distinct(#[trigger] sets[s]@) by {
                lemma_positions_differ(rows, names@[s], rows.len(), 0);
            }
            if rows.len() > 0 {
                assert(rows.last() == rows[rows.len() - 1]);
            }
        }
        let map = AntennaMap { antenna_sets: sets, width: x, height: y };
        proof {
            assert(map.antenna_sets@ == sets@);
            assert(charted(rows, names@, map.antenna_sets@));
            assert(map.wf());
            assert(map.height == rows.len());
            assert(map.width == if rows.len() == 0 {
                0
            } else {
                rows.last().len()
            });
        }
        Some(map)
    }
}

/// How many places of the map that the text draws are antinodes at twice
/// the distance, and how many at any distance; nothing where the text
/// draws no map.
pub fn solve(input: &str) -> (result: Option<(usize, usize)>)
    ensures
        result is Some <==> is_map(lines_of(input@)),
{
    let map = match AntennaMap::from_string(input) {
        None => {
            return None;
        },
        Some(map) => map,
    };
    let part1 = map.count_antinodes_at_twice_distance();
    let part2 = map.count_antinodes_at_any_distance();
    Some((part1, part2))
}

} // verus!
