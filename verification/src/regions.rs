//! A garden of plots, each with a plant named by one character: plots with
//! the same plant that touch at their sides make a region, which has an
//! area, a perimeter and a number of sides.

use crate::text::{chars_of, first_index_of, lines_of, lines_of_chars, views};
use std::collections::HashSet;
use std::collections::VecDeque;
use vstd::prelude::*;

verus! {

broadcast use vstd::std_specs::hash::group_hash_axioms;

/// The largest number of rows and of columns of a garden.
pub const MAX_SIDE: usize = 32767;

/// A plot of the garden, or a place beside it.
#[derive(Clone, Copy, Debug, PartialEq, Eq)]
pub struct Point {
    pub x: i16,
    pub y: i16,
}

/// A garden: the plants of its plots row by row, and its size.
#[derive(Debug)]
pub struct Garden {
    pub data: Vec<char>,
    pub rows: usize,
    pub cols: usize,
}

/// The number that stands for a plot in a set of plots.
pub open spec fn key_of(x: int, y: int) -> u32 {
    (x * 65536 + y) as u32
}

/// The column of the plot that a number stands for.
pub open spec fn column_of(k: u32) -> int {
    k as int / 65536
}

/// The row of the plot that a number stands for.
pub open spec fn row_of(k: u32) -> int {
    k as int % 65536
}

/// The sum of what `f` gives for each plot of a garden with so many
/// columns that comes before the plot (`x`, `y`) in the order of reading.
pub open spec fn grid_sum(cols: nat, f: spec_fn(int, int) -> nat, y: nat, x: nat) -> nat
    decreases y, x,
{
    if x > 0 {
        grid_sum(cols, f, y, (x - 1) as nat) + f(x - 1, y as int)
    } else if y > 0 {
        grid_sum(cols, f, (y - 1) as nat, cols)
    } else {
        0
    }
}

/// Whether the plot (`u`, `v`) comes before the plot (`x`, `y`) in the
/// order of reading.
pub open spec fn reads_before(u: int, v: int, x: int, y: int) -> bool {
    v < y || (v == y && u < x)
}

/// Two sums that differ in what one plot gives differ by as much, where the
/// plot is counted.
pub proof fn lemma_grid_sum_differs(
    cols: nat,
    f: spec_fn(int, int) -> nat,
    g: spec_fn(int, int) -> nat,
    u: int,
    v: int,
    y: nat,
    x: nat,
)
    requires
        0 <= u < cols,
        0 <= v,
        x <= cols,
        forall|a: int, b: int|
            0 <= a < cols && 0 <= b <= y && (a != u || b != v) ==> #[trigger] f(a, b) == g(a, b),
    ensures
        grid_sum(cols, g, y, x) + (if reads_before(u, v, x as int, y as int) {
            f(u, v)
        } else {
            0
        }) == grid_sum(cols, f, y, x) + (if reads_before(u, v, x as int, y as int) {
            g(u, v)
        } else {
            0
        }),
    decreases y, x,
{
    if x > 0 {
        lemma_grid_sum_differs(cols, f, g, u, v, y, (x - 1) as nat);
    } else if y > 0 {
        lemma_grid_sum_differs(cols, f, g, u, v, (y - 1) as nat, cols);
    }
}

/// A sum of numbers that are no more than `most` each is no more than that
/// for each plot.
pub proof fn lemma_grid_sum_bound(cols: nat, f: spec_fn(int, int) -> nat, most: nat, y: nat, x: nat)
    requires
        x <= cols,
        forall|a: int, b: int| #[trigger] f(a, b) <= most,
    ensures
        grid_sum(cols, f, y, x) <= most * (y * cols + x),
    decreases y, x,
{
    if x > 0 {
        lemma_grid_sum_bound(cols, f, most, y, (x - 1) as nat);
        assert(most * (y * cols + (x - 1)) + most == most * (y * cols + x)) by (nonlinear_arith);
    } else if y > 0 {
        lemma_grid_sum_bound(cols, f, most, (y - 1) as nat, cols);
        assert(most * ((y - 1) * cols + cols) == most * (y * cols + 0)) by (nonlinear_arith);
    }
}

impl Garden {
    /// Whether the garden has a plant for each of its plots, and no more
    /// rows or columns than `MAX_SIDE`.
    pub open spec fn wf(&self) -> bool {
        self.rows <= MAX_SIDE && self.cols <= MAX_SIDE && self.rows * self.cols <= self.data.len()
    }

    /// Whether the plot lies in the garden.
    pub open spec fn on_map(&self, x: int, y: int) -> bool {
        0 <= x < self.cols && 0 <= y < self.rows
    }

    /// The plant of a plot.
    pub open spec fn plant(&self, x: int, y: int) -> char {
        self.data[y * self.cols + x]
    }

    /// Whether the plot lies in the garden and has the plant `c`.
    pub open spec fn grows(&self, c: char, x: int, y: int) -> bool {
        self.on_map(x, y) && self.plant(x, y) == c
    }

    /// Whether the plot (`x`, `y`) is reached from the plot (`sx`, `sy`)
    /// in `n` steps or fewer over plots with the plant `c`, each step to a
    /// plot at the side.
    pub open spec fn reach(&self, c: char, sx: int, sy: int, x: int, y: int, n: nat) -> bool
        decreases n,
    {
        self.grows(c, x, y) && ((x == sx && y == sy) || (n > 0 && (self.reach(
            c,
            sx,
            sy,
            x - 1,
            y,
            (n - 1) as nat,
        ) || self.reach(c, sx, sy, x + 1, y, (n - 1) as nat) || self.reach(
            c,
            sx,
            sy,
            x,
            y - 1,
            (n - 1) as nat,
        ) || self.reach(c, sx, sy, x, y + 1, (n - 1) as nat))))
    }

    /// Whether the two plots belong to one region: the second is reached
    /// from the first over plots with the plant of the first.
    pub open spec fn joined(&self, sx: int, sy: int, x: int, y: int) -> bool {
        exists|n: nat| #[trigger] self.reach(self.plant(sx, sy), sx, sy, x, y, n)
    }

    /// The region of a plot.
    pub open spec fn region_of(&self, sx: int, sy: int) -> Set<u32> {
        Set::new(|k: u32| self.joined(sx, sy, column_of(k), row_of(k)))
    }

    /// How many of the four sides of a plot have a fence: those beyond
    /// which the garden ends or another plant grows.
    pub open spec fn fences_at(&self, x: int, y: int) -> nat {
        let c = self.plant(x, y);
        (if self.grows(c, x - 1, y) {
            0nat
        } else {
            1nat
        }) + (if self.grows(c, x + 1, y) {
            0nat
        } else {
            1nat
        }) + (if self.grows(c, x, y - 1) {
            0nat
        } else {
            1nat
        }) + (if self.grows(c, x, y + 1) {
            0nat
        } else {
            1nat
        })
    }

    /// What a plot adds to the perimeter of a region: its fences, where it
    /// belongs to the region.
    pub open spec fn fences_in(&self, region: Set<u32>) -> spec_fn(int, int) -> nat {
        |x: int, y: int|
            if region.contains(key_of(x, y)) {
                self.fences_at(x, y)
            } else {
                0
            }
    }

    /// The perimeter of a region: the fences of its plots.
    pub open spec fn perimeter_of(&self, region: Set<u32>) -> nat {
        grid_sum(self.cols as nat, self.fences_in(region), self.rows as nat, 0)
    }

    /// The plant of a plot; nothing for a place beside the garden.
    pub fn get(&self, p: &Point) -> (found: Option<char>)
        requires
            self.wf(),
        ensures
            found is Some <==> self.on_map(p.x as int, p.y as int),
            found matches Some(c) ==> c == self.plant(p.x as int, p.y as int),
    {
        if p.x > -1 && p.y > -1 {
            let x = p.x as usize;
            let y = p.y as usize;
            if y < self.rows && x < self.cols {
                assert(y * self.cols + x < self.rows * self.cols) by (nonlinear_arith)
                    requires
                        y < self.rows,
                        x < self.cols,
                ;
                assert(self.rows * self.cols <= 32767 * 32767) by (nonlinear_arith)
                    requires
                        self.rows <= 32767,
                        self.cols <= 32767,
                ;
                let index = y * self.cols + x;
                return Some(self.data[index]);
            }
        }
        None
    }
}

impl Point {
    pub fn new(x: i16, y: i16) -> (p: Point)
        ensures
            p.x == x && p.y == y,
    {
        Point { x, y }
    }

    /// The number that stands for the plot.
    pub open spec fn key(&self) -> u32 {
        key_of(self.x as int, self.y as int)
    }

    /// The number that stands for a plot of a garden.
    pub fn to_key(&self) -> (k: u32)
        requires
            0 <= self.x && 0 <= self.y,
        ensures
            k == self.key(),
            column_of(k) == self.x,
            row_of(k) == self.y,
    {
        self.x as u32 * 65536 + self.y as u32
    }

    /// The four places at the sides of a plot: to the left, to the right,
    /// above and below.
    pub fn get_neighbours(&self) -> (around: [Point; 4])
        requires
            -32768 < self.x < 32767,
            -32768 < self.y < 32767,
        ensures
            around[0] == (Point { x: (self.x - 1) as i16, y: self.y }),
            around[1] == (Point { x: (self.x + 1) as i16, y: self.y }),
            around[2] == (Point { x: self.x, y: (self.y - 1) as i16 }),
            around[3] == (Point { x: self.x, y: (self.y + 1) as i16 }),
    {
        [
            Point::new(self.x - 1, self.y),
            Point::new(self.x + 1, self.y),
            Point::new(self.x, self.y - 1),
            Point::new(self.x, self.y + 1),
        ]
    }
}

/// Whether the plot (`x`, `y`) waits in the queue.
pub open spec fn waits(queue: Seq<Point>, x: int, y: int) -> bool {
    exists|i: int| 0 <= i < queue.len() && (#[trigger] queue[i]).x == x && queue[i].y == y
}

/// What a plot adds to the area of a region: one, where it belongs to it.
pub open spec fn plots_in(region: Set<u32>) -> spec_fn(int, int) -> nat {
    |x: int, y: int|
        if region.contains(key_of(x, y)) {
            1nat
        } else {
            0nat
        }
}

impl Garden {
    /// Whether the plot (`x`, `y`) need not be found any more: it has
    /// another plant than `c`, is known, or waits in the queue.
    pub open spec fn settled(&self, c: char, known: Set<u32>, queue: Seq<Point>, x: int, y: int) -> bool {
        self.grows(c, x, y) ==> known.contains(key_of(x, y)) || waits(queue, x, y)
    }

    /// Whether the four plots at the sides of a plot are settled.
    pub open spec fn closed_at(&self, c: char, known: Set<u32>, queue: Seq<Point>, x: int, y: int) -> bool {
        &&& self.settled(c, known, queue, x - 1, y)
        &&& self.settled(c, known, queue, x + 1, y)
        &&& self.settled(c, known, queue, x, y - 1)
        &&& self.settled(c, known, queue, x, y + 1)
    }

    /// Whether the plots at the sides of every known plot are settled.
    pub open spec fn closed(&self, c: char, known: Set<u32>, queue: Seq<Point>) -> bool {
        forall|k: u32| #[trigger]
            known.contains(k) ==> self.closed_at(c, known, queue, column_of(k), row_of(k))
    }

    /// Whether every known plot belongs to the region of the plot (`sx`,
    /// `sy`).
    pub open spec fn sound(&self, sx: int, sy: int, known: Set<u32>) -> bool {
        forall|k: u32| #[trigger] known.contains(k) ==> self.joined(sx, sy, column_of(k), row_of(k))
    }

    /// Whether every plot in the queue belongs to the region of the plot
    /// (`sx`, `sy`).
    pub open spec fn queue_sound(&self, sx: int, sy: int, queue: Seq<Point>) -> bool {
        forall|i: int|
            0 <= i < queue.len() ==> self.joined(
                sx,
                sy,
                (#[trigger] queue[i]).x as int,
                queue[i].y as int,
            )
    }

    /// A plot with the plant of the region at the side of one of its plots
    /// belongs to the region.
    pub proof fn lemma_joined_step(&self, sx: int, sy: int, px: int, py: int, x: int, y: int)
        requires
            self.joined(sx, sy, px, py),
            self.grows(self.plant(sx, sy), x, y),
            (x == px && (y == py - 1 || y == py + 1)) || (y == py && (x == px - 1 || x == px + 1)),
        ensures
            self.joined(sx, sy, x, y),
    {
        let c = self.plant(sx, sy);
        let n = choose|n: nat| #[trigger] self.reach(c, sx, sy, px, py, n);
        assert(self.reach(c, sx, sy, x, y, n + 1));
    }

    /// A set of plots that holds the first plot, and with each of its plots
    /// those at its sides with the same plant, holds every plot that is
    /// reached from the first.
    pub proof fn lemma_closed_holds_all(
        &self,
        c: char,
        sx: int,
        sy: int,
        known: Set<u32>,
        x: int,
        y: int,
        n: nat,
    )
        requires
            self.wf(),
            self.closed(c, known, Seq::empty()),
            known.contains(key_of(sx, sy)),
            self.reach(c, sx, sy, x, y, n),
        ensures
            known.contains(key_of(x, y)),
        decreases n,
    {
        if x == sx && y == sy {
        } else {
            let (u, v) = if self.reach(c, sx, sy, x - 1, y, (n - 1) as nat) {
                (x - 1, y)
            } else if self.reach(c, sx, sy, x + 1, y, (n - 1) as nat) {
                (x + 1, y)
            } else if self.reach(c, sx, sy, x, y - 1, (n - 1) as nat) {
                (x, y - 1)
            } else {
                (x, y + 1)
            };
            self.lemma_closed_holds_all(c, sx, sy, known, u, v, (n - 1) as nat);
            let k = key_of(u, v);
            assert(self.on_map(u, v));
            assert(column_of(k) == u && row_of(k) == v);
            assert(known.contains(k));
            assert(self.closed_at(c, known, Seq::empty(), u, v));
            assert(self.settled(c, known, Seq::empty(), x, y));
            assert(!waits(Seq::empty(), x, y));
        }
    }

    /// Looks at a place at the side of a plot of the region with the plant
    /// `character`: a plot with that plant is put at the end of the queue;
    /// anything else asks for a fence.
    fn look(&self, queue: &mut VecDeque<Point>, neighbour: Point, character: char) -> (fence: bool)
        requires
            self.wf(),
        ensures
            fence == !self.grows(character, neighbour.x as int, neighbour.y as int),
            fence ==> final(queue)@ == old(queue)@,
            !fence ==> final(queue)@ == old(queue)@.push(neighbour),
    {
        if let Some(neighbour_char) = self.get(&neighbour) {
            if neighbour_char == character {
                queue.push_back(neighbour);
                return false;
            }
        }
        true
    }

    /// The area and the perimeter of the region of a plot of the garden,
    /// and the region.
    pub fn calculate_region(&self, start: Point) -> (found: (usize, usize, HashSet<u32>))
        requires
            self.wf(),
            self.on_map(start.x as int, start.y as int),
        ensures
            found.2@ == self.region_of(start.x as int, start.y as int),
            found.2@.finite(),
            found.0 == found.2@.len(),
            found.0 >= 1,
            found.0 <= self.rows * self.cols,
            found.1 == self.perimeter_of(found.2@),
            found.1 <= 4 * found.0,
    {
        let mut area: usize = 0;
        let mut perimeter: usize = 0;
        let mut known_region: HashSet<u32> = HashSet::new();
        let character = self.get(&start).unwrap();
        let mut queue: VecDeque<Point> = VecDeque::new();
        queue.push_back(start);
        let ghost sx = start.x as int;
        let ghost sy = start.y as int;
        let ghost cols = self.cols as nat;
        let ghost rows = self.rows as nat;
        proof {
            assert(queue@[0] == start);
            assert(waits(queue@, sx, sy));
            assert(self.reach(character, sx, sy, sx, sy, 0));
            self.lemma_nothing_known(rows, 0);
            assert(self.rows * self.cols <= 32767 * 32767) by (nonlinear_arith)
                requires
                    self.rows <= 32767,
                    self.cols <= 32767,
            ;
        }
        while queue.len() > 0
            invariant
                self.wf(),
                self.on_map(sx, sy),
                sx == start.x && sy == start.y,
                cols == self.cols && rows == self.rows,
                character == self.plant(sx, sy),
                known_region@.finite(),
                area == known_region@.len(),
                area == grid_sum(cols, plots_in(known_region@), rows, 0),
                area <= rows * cols,
                rows * cols <= 32767 * 32767,
                perimeter == self.perimeter_of(known_region@),
                perimeter <= 4 * area,
                self.sound(sx, sy, known_region@),
                self.queue_sound(sx, sy, queue@),
                self.closed(character, known_region@, queue@),
                known_region@.contains(key_of(sx, sy)) || waits(queue@, sx, sy),
            decreases rows * cols - area, queue.len(),
        {
            let ghost before = queue@;
            let ghost known = known_region@;
            let point = queue.pop_front().unwrap();
            let ghost rest = queue@;
            let ghost px = point.x as int;
            let ghost py = point.y as int;
            proof {
                assert(before[0] == point);
                assert(self.joined(sx, sy, px, py));
                assert(self.grows(character, px, py));
                assert forall|i: int| 0 <= i < rest.len() implies #[trigger] rest[i] == before[i + 1] by {}
            }
            let key = point.to_key();
            if !known_region.contains(&key) {
                let around = point.get_neighbours();
                let mut fences: usize = 0;
                if self.look(&mut queue, around[0], character) {
                    fences += 1;
                }
                let ghost first = queue@;
                if self.look(&mut queue, around[1], character) {
                    fences += 1;
                }
                let ghost second = queue@;
                if self.look(&mut queue, around[2], character) {
                    fences += 1;
                }
                let ghost third = queue@;
                if self.look(&mut queue, around[3], character) {
                    fences += 1;
                }
                let ghost after = queue@;
                known_region.insert(key);
                let ghost grown = known_region@;
                proof {
                    assert(fences == self.fences_at(px, py));
                    assert(grown == known.insert(key));
                    // what waited goes on waiting, but for the plot itself
                    assert forall|i: int| 0 <= i < rest.len() implies #[trigger] after[i] == rest[i] by {
                        assert(first[i] == rest[i]);
                        assert(second[i] == first[i]);
                        assert(third[i] == second[i]);
                    }
                    assert forall|x: int, y: int| waits(before, x, y) implies grown.contains(
                        key_of(x, y),
                    ) || waits(after, x, y) by {
                        let i = choose|i: int|
                            0 <= i < before.len() && (#[trigger] before[i]).x == x && before[i].y == y;
                        if i > 0 {
                            assert(after[i - 1] == rest[i - 1]);
                            assert(after[i - 1].x == x && after[i - 1].y == y);
                        }
                    }
                    // the plots at the sides with the same plant wait now
                    assert(self.closed_at(character, grown, after, px, py)) by {
                        if self.grows(character, px - 1, py) {
                            assert(first[rest.len() as int] == around[0]);
                            assert(after[rest.len() as int] == around[0]) by {
                                assert(second[rest.len() as int] == first[rest.len() as int]);
                                assert(third[rest.len() as int] == second[rest.len() as int]);
                            }
                            assert(waits(after, px - 1, py));
                        }
                        if self.grows(character, px + 1, py) {
                            let at = first.len() as int;
                            assert(second[at] == around[1]);
                            assert(after[at] == around[1]) by {
                                assert(third[at] == second[at]);
                            }
                            assert(waits(after, px + 1, py));
                        }
                        if self.grows(character, px, py - 1) {
                            let at = second.len() as int;
                            assert(third[at] == around[2]);
                            assert(after[at] == around[2]);
                            assert(waits(after, px, py - 1));
                        }
                        if self.grows(character, px, py + 1) {
                            let at = third.len() as int;
                            assert(after[at] == around[3]);
                            assert(waits(after, px, py + 1));
                        }
                    }
                    assert forall|k: u32| #[trigger] grown.contains(k) implies self.closed_at(
                        character,
                        grown,
                        after,
                        column_of(k),
                        row_of(k),
                    ) by {
                        if k != key {
                            assert(known.contains(k));
                            assert(self.closed_at(character, known, before, column_of(k), row_of(k)));
                        }
                    }
                    assert forall|i: int| 0 <= i < after.len() implies self.joined(
                        sx,
                        sy,
                        (#[trigger] after[i]).x as int,
                        after[i].y as int,
                    ) by {
                        if i < rest.len() {
                            assert(after[i] == before[i + 1]);
                        } else {
                            assert(after[i] == around[0] || after[i] == around[1] || after[i]
                                == around[2] || after[i] == around[3]) by {
                                if i < first.len() {
                                    assert(second[i] == first[i]);
                                    assert(third[i] == second[i]);
                                } else if i < second.len() {
                                    assert(third[i] == second[i]);
                                } else if i < third.len() {
                                }
                            }
                            assert(self.grows(character, after[i].x as int, after[i].y as int)) by {
                                if i < first.len() {
                                    assert(second[i] == first[i]);
                                    assert(third[i] == second[i]);
                                } else if i < second.len() {
                                    assert(third[i] == second[i]);
                                } else if i < third.len() {
                                }
                            }
                            self.lemma_joined_step(
                                sx,
                                sy,
                                px,
                                py,
                                after[i].x as int,
                                after[i].y as int,
                            );
                        }
                    }
                    assert(self.sound(sx, sy, grown));
                    // the plot counts once more, with its fences
                    lemma_grid_sum_differs(cols, plots_in(known), plots_in(grown), px, py, rows, 0);
                    lemma_grid_sum_differs(
                        cols,
                        self.fences_in(known),
                        self.fences_in(grown),
                        px,
                        py,
                        rows,
                        0,
                    );
                    lemma_grid_sum_bound(cols, plots_in(grown), 1, rows, 0);
                    assert(1 * (rows * cols + 0) == rows * cols) by (nonlinear_arith);
                }
                area += 1;
                perimeter += fences;
            } else {
                proof {
                    assert(key_of(px, py) == key);
                    assert forall|x: int, y: int| waits(before, x, y) implies known.contains(
                        key_of(x, y),
                    ) || waits(rest, x, y) by {
                        let i = choose|i: int|
                            0 <= i < before.len() && (#[trigger] before[i]).x == x && before[i].y == y;
                        if i > 0 {
                            assert(rest[i - 1] == before[i]);
                        }
                    }
                    assert forall|k: u32| #[trigger] known.contains(k) implies self.closed_at(
                        character,
                        known,
                        rest,
                        column_of(k),
                        row_of(k),
                    ) by {
                        assert(self.closed_at(character, known, before, column_of(k), row_of(k)));
                    }
                    assert forall|i: int| 0 <= i < rest.len() implies self.joined(
                        sx,
                        sy,
                        (#[trigger] rest[i]).x as int,
                        rest[i].y as int,
                    ) by {
                        assert(rest[i] == before[i + 1]);
                    }
                }
            }
        }
        proof {
            assert(queue@ =~= Seq::<Point>::empty());
            assert(!waits(queue@, sx, sy));
            assert(known_region@ =~= self.region_of(sx, sy)) by {
                assert forall|k: u32| self.region_of(sx, sy).contains(k) implies known_region@.contains(
                    k,
                ) by {
                    let n = choose|n: nat| #[trigger]
                        self.reach(character, sx, sy, column_of(k), row_of(k), n);
                    self.lemma_closed_holds_all(
                        character,
                        sx,
                        sy,
                        known_region@,
                        column_of(k),
                        row_of(k),
                        n,
                    );
                    assert(key_of(column_of(k), row_of(k)) == k);
                }
            }
        }
        (area, perimeter, known_region)
    }

    /// Of no plots, none counts.
    proof fn lemma_nothing_known(&self, y: nat, x: nat)
        ensures
            grid_sum(self.cols as nat, plots_in(Set::<u32>::empty()), y, x) == 0,
            grid_sum(self.cols as nat, self.fences_in(Set::<u32>::empty()), y, x) == 0,
        decreases y, x,
    {
        if x > 0 {
            self.lemma_nothing_known(y, (x - 1) as nat);
        } else if y > 0 {
            self.lemma_nothing_known((y - 1) as nat, self.cols as nat);
        }
    }
}

/// Whether the place is a plot of the region.
pub open spec fn holds(region: Set<u32>, x: int, y: int) -> bool {
    x >= 0 && y >= 0 && region.contains(key_of(x, y))
}

/// Whether a fence of the region goes straight through the corner at the
/// top left of the plot (`x`, `y`): of the four plots around the corner,
/// two that lie side by side belong to the region, and the other two do
/// not.
pub open spec fn straight(region: Set<u32>, x: int, y: int) -> bool {
    let top_left = holds(region, x - 1, y - 1);
    let top_right = holds(region, x, y - 1);
    let bottom_left = holds(region, x - 1, y);
    let bottom_right = holds(region, x, y);
    ||| top_left && top_right && !bottom_left && !bottom_right
    ||| !top_left && !top_right && bottom_left && bottom_right
    ||| top_left && !top_right && bottom_left && !bottom_right
    ||| !top_left && top_right && !bottom_left && bottom_right
}

/// How many corners without a turn a plot of the region answers for: the
/// one at its top left, and the one at its bottom right where the plot
/// beyond that corner does not belong to the region.
pub open spec fn straight_at(region: Set<u32>, x: int, y: int) -> nat {
    (if straight(region, x, y) {
        1nat
    } else {
        0nat
    }) + (if !holds(region, x + 1, y + 1) && straight(region, x + 1, y + 1) {
        1nat
    } else {
        0nat
    })
}

/// What a plot adds to the discount of a region.
pub open spec fn straight_in(region: Set<u32>) -> spec_fn(int, int) -> nat {
    |x: int, y: int|
        if region.contains(key_of(x, y)) {
            straight_at(region, x, y)
        } else {
            0
        }
}

/// Whether the place, which lies no further than one plot beside a
/// garden, is a plot of the region.
fn is_in(region: &HashSet<u32>, x: i32, y: i32) -> (found: bool)
    requires
        -1 <= x <= 32767,
        -1 <= y <= 32767,
    ensures
        found == holds(region@, x as int, y as int),
{
    if x < 0 || y < 0 {
        false
    } else {
        let key = x as u32 * 65536 + y as u32;
        region.contains(&key)
    }
}

/// Whether a fence of the region goes straight through the corner at the
/// top left of the plot.
fn is_straight(region: &HashSet<u32>, x: i32, y: i32) -> (found: bool)
    requires
        0 <= x <= 32767,
        0 <= y <= 32767,
    ensures
        found == straight(region@, x as int, y as int),
{
    let top_left = is_in(region, x - 1, y - 1);
    let top_right = is_in(region, x, y - 1);
    let bottom_left = is_in(region, x - 1, y);
    let bottom_right = is_in(region, x, y);
    (top_left && top_right && !bottom_left && !bottom_right) || (!top_left && !top_right
        && bottom_left && bottom_right) || (top_left && !top_right && bottom_left && !bottom_right)
        || (!top_left && top_right && !bottom_left && bottom_right)
}

/// The text before a line break of each line, one after the other.
pub open spec fn flattened(all: Seq<Seq<char>>) -> Seq<char>
    decreases all.len(),
{
    if all.len() == 0 {
        Seq::empty()
    } else {
        flattened(all.drop_last()) + all.last()
    }
}

/// Whether `c` stands in the text at `n` and nowhere before.
pub open spec fn first_at(text: Seq<char>, c: char, n: int) -> bool {
    &&& 0 <= n < text.len()
    &&& text[n] == c
    &&& forall|j: int| 0 <= j < n ==> text[j] != c
}

impl Garden {
    /// How many corners of a region of the garden are no corners, because
    /// its fence goes straight through them: the perimeter less this is the
    /// number of the region's sides.
    pub open spec fn discount_of(&self, region: Set<u32>) -> nat {
        grid_sum(self.cols as nat, straight_in(region), self.rows as nat, 0)
    }

    /// How many corners of a region of the garden are no corners.
    pub fn calculate_bulk_discount(&self, region: &HashSet<u32>) -> (no_corner: usize)
        requires
            self.wf(),
        ensures
            no_corner == self.discount_of(region@),
            no_corner <= 2 * (self.rows * self.cols),
    {
        let ghost cols = self.cols as nat;
        let ghost f = straight_in(region@);
        let mut no_corner: usize = 0;
        let mut y: usize = 0;
        proof {
            assert(self.rows * self.cols <= 32767 * 32767) by (nonlinear_arith)
                requires
                    self.rows <= 32767,
                    self.cols <= 32767,
            ;
        }
        while y < self.rows
            invariant
                self.wf(),
                y <= self.rows,
                cols == self.cols,
                f == straight_in(region@),
                self.rows * self.cols <= 32767 * 32767,
                no_corner == grid_sum(cols, f, y as nat, 0),
                no_corner <= 2 * (y * cols),
            decreases self.rows - y,
        {
            let mut x: usize = 0;
            while x < self.cols
                invariant
                    self.wf(),
                    y < self.rows,
                    x <= self.cols,
                    cols == self.cols,
                    f == straight_in(region@),
                    self.rows * self.cols <= 32767 * 32767,
                    no_corner == grid_sum(cols, f, y as nat, x as nat),
                    no_corner <= 2 * (y * cols + x),
                decreases self.cols - x,
            {
                proof {
                    assert(y * cols + x < self.rows * self.cols) by (nonlinear_arith)
                        requires
                            y < self.rows,
                            x < self.cols,
                            cols == self.cols,
                    ;
                }
                if is_in(region, x as i32, y as i32) {
                    if is_straight(region, x as i32, y as i32) {
                        no_corner += 1;
                    }
                    if !is_in(region, x as i32 + 1, y as i32 + 1) && is_straight(
                        region,
                        x as i32 + 1,
                        y as i32 + 1,
                    ) {
                        no_corner += 1;
                    }
                }
                x += 1;
            }
            proof {
                assert((y + 1) * cols == y * cols + cols) by (nonlinear_arith);
            }
            y += 1;
        }
        proof {
            assert(y * cols == self.rows * self.cols);
        }
        no_corner
    }

    /// Reads a garden: every character of a line is a plant, and the first
    /// carriage return tells how many columns a row has.
    pub fn from_str(input: &str) -> (result: Result<Garden, ()>)
        ensures
            result is Ok <==> exists|n: int| first_at(input@, '\r', n),
            result matches Ok(garden) ==> drawn(input@, garden),
    {
        let text = chars_of(input);
        let lines = lines_of_chars(&text);
        let ghost all = views(lines@);
        let mut data: Vec<char> = Vec::new();
        let mut y: usize = 0;
        assert(all.take(0) =~= Seq::<Seq<char>>::empty());
        while y < lines.len()
            invariant
                y <= lines.len(),
                all == views(lines@),
                data@ == flattened(all.take(y as int)),
            decreases lines.len() - y,
        {
            let line = &lines[y];
            let ghost before = data@;
            let mut x: usize = 0;
            while x < line.len()
                invariant
                    x <= line.len(),
                    data@ == before + line@.take(x as int),
                decreases line.len() - x,
            {
                data.push(line[x]);
                assert(line@.take(x + 1) =~= line@.take(x as int).push(line[x as int]));
                x += 1;
            }
            proof {
                assert(line@.take(x as int) == line@);
                assert(all.take(y + 1).drop_last() =~= all.take(y as int));
                assert(all.take(y + 1).last() == line@);
            }
            y += 1;
        }
        assert(all.take(y as int) == all);
        let height = lines.len();
        match first_index_of(&text, '\r') {
            None => Err(()),
            Some(width) => {
                assert(first_at(input@, '\r', width as int));
                Ok(Garden { data, cols: width, rows: height })
            },
        }
    }
}

/// A sum grows along a row.
pub proof fn lemma_row_grows(cols: nat, f: spec_fn(int, int) -> nat, y: nat, x: nat, further: nat)
    requires
        x <= further,
    ensures
        grid_sum(cols, f, y, x) <= grid_sum(cols, f, y, further),
    decreases further,
{
    if x < further {
        lemma_row_grows(cols, f, y, x, (further - 1) as nat);
    }
}

/// A sum grows from row to row.
pub proof fn lemma_rows_grow(cols: nat, f: spec_fn(int, int) -> nat, y: nat, x: nat, below: nat)
    requires
        y < below,
        x <= cols,
    ensures
        grid_sum(cols, f, y, x) <= grid_sum(cols, f, below, 0),
    decreases below,
{
    lemma_row_grows(cols, f, y, x, cols);
    if y + 1 < below {
        lemma_rows_grow(cols, f, y, x, (below - 1) as nat);
        lemma_row_grows(cols, f, (below - 1) as nat, 0, cols);
    }
}

/// The plots of a region that come before the plot (`x`, `y`) in the order
/// of reading.
pub open spec fn part_before(region: Set<u32>, x: int, y: int) -> Set<u32> {
    Set::new(|k: u32| region.contains(k) && reads_before(column_of(k), row_of(k), x, y))
}

/// Whether the text draws the garden: every character of a line is a
/// plant, and the first carriage return tells how many columns a row has.
pub open spec fn drawn(input: Seq<char>, garden: Garden) -> bool {
    &&& first_at(input, '\r', garden.cols as int)
    &&& garden.rows == lines_of(input).len()
    &&& garden.data@ == flattened(lines_of(input))
}

impl Garden {
    /// A plot that is reached in some steps is reached in more.
    pub proof fn lemma_reach_more(&self, c: char, sx: int, sy: int, x: int, y: int, n: nat, more: nat)
        requires
            self.reach(c, sx, sy, x, y, n),
            n <= more,
        ensures
            self.reach(c, sx, sy, x, y, more),
        decreases n,
    {
        if (x == sx && y == sy) || n == 0 {
        } else {
            let (u, v) = if self.reach(c, sx, sy, x - 1, y, (n - 1) as nat) {
                (x - 1, y)
            } else if self.reach(c, sx, sy, x + 1, y, (n - 1) as nat) {
                (x + 1, y)
            } else if self.reach(c, sx, sy, x, y - 1, (n - 1) as nat) {
                (x, y - 1)
            } else {
                (x, y + 1)
            };
            self.lemma_reach_more(c, sx, sy, u, v, (n - 1) as nat, (more - 1) as nat);
        }
    }

    /// What is reached from a plot that is reached is reached.
    pub proof fn lemma_reach_chain(
        &self,
        c: char,
        ax: int,
        ay: int,
        bx: int,
        by: int,
        x: int,
        y: int,
        m: nat,
        n: nat,
    )
        requires
            self.reach(c, ax, ay, bx, by, m),
            self.reach(c, bx, by, x, y, n),
        ensures
            self.reach(c, ax, ay, x, y, m + n),
        decreases n,
    {
        if x == bx && y == by {
            self.lemma_reach_more(c, ax, ay, bx, by, m, m + n);
        } else {
            let (u, v) = if self.reach(c, bx, by, x - 1, y, (n - 1) as nat) {
                (x - 1, y)
            } else if self.reach(c, bx, by, x + 1, y, (n - 1) as nat) {
                (x + 1, y)
            } else if self.reach(c, bx, by, x, y - 1, (n - 1) as nat) {
                (x, y - 1)
            } else {
                (x, y + 1)
            };
            self.lemma_reach_chain(c, ax, ay, bx, by, u, v, m, (n - 1) as nat);
        }
    }

    /// A plot of the region of a plot of a region belongs to that region.
    pub proof fn lemma_joined_chain(&self, ax: int, ay: int, bx: int, by: int, x: int, y: int)
        requires
            self.joined(ax, ay, bx, by),
            self.joined(bx, by, x, y),
        ensures
            self.joined(ax, ay, x, y),
    {
        let c = self.plant(ax, ay);
        let m = choose|m: nat| #[trigger] self.reach(c, ax, ay, bx, by, m);
        let n = choose|n: nat| #[trigger] self.reach(self.plant(bx, by), bx, by, x, y, n);
        self.lemma_reach_chain(c, ax, ay, bx, by, x, y, m, n);
    }

    /// Whether the plot that `k` stands for belongs to the region of a plot
    /// that comes before the plot (`x`, `y`) in the order of reading.
    pub open spec fn seen(&self, k: u32, x: int, y: int) -> bool {
        exists|u: int, v: int|
            self.on_map(u, v) && reads_before(u, v, x, y) && #[trigger] self.joined(
                u,
                v,
                column_of(k),
                row_of(k),
            )
    }

    /// Whether the plot is the first of its region in the order of reading.
    pub open spec fn is_first(&self, x: int, y: int) -> bool {
        !self.seen(key_of(x, y), x, y)
    }

    /// The number of sides of a region: its perimeter less the corners
    /// through which its fence goes straight, and four where the region has
    /// one plot or two.
    pub open spec fn sides_of(&self, region: Set<u32>) -> int {
        if region.len() > 2 {
            self.perimeter_of(region) - self.discount_of(region)
        } else {
            4
        }
    }

    /// The price of the fence of a region, which the first plot of the
    /// region answers for: its perimeter times its area.
    pub open spec fn price_at(&self) -> spec_fn(int, int) -> nat {
        |x: int, y: int|
            if self.is_first(x, y) {
                self.perimeter_of(self.region_of(x, y)) * self.region_of(x, y).len()
            } else {
                0
            }
    }

    /// The price of the fence of a region when sides are paid for: the
    /// number of its sides times its area.
    pub open spec fn bulk_price_at(&self) -> spec_fn(int, int) -> nat {
        |x: int, y: int|
            if self.is_first(x, y) && self.sides_of(self.region_of(x, y)) >= 0 {
                (self.sides_of(self.region_of(x, y)) * self.region_of(x, y).len()) as nat
            } else {
                0
            }
    }

    /// Whether the regions whose first plot comes before the plot (`x`,
    /// `y`) have a number of sides.
    pub open spec fn sided_before(&self, x: int, y: int) -> bool {
        forall|u: int, v: int|
            self.on_map(u, v) && reads_before(u, v, x, y) && #[trigger] self.is_first(u, v)
                ==> self.sides_of(self.region_of(u, v)) >= 0
    }

    /// The price of all fences.
    pub open spec fn price(&self) -> nat {
        grid_sum(self.cols as nat, self.price_at(), self.rows as nat, 0)
    }

    /// The price of all fences when sides are paid for.
    pub open spec fn bulk_price(&self) -> nat {
        grid_sum(self.cols as nat, self.bulk_price_at(), self.rows as nat, 0)
    }

    /// Puts the plots of a region into the set of the plots that were
    /// seen.
    fn mark_region(&self, region: &HashSet<u32>, visited: &mut HashSet<u32>)
        requires
            self.wf(),
            forall|k: u32| #[trigger]
                region@.contains(k) ==> self.on_map(column_of(k), row_of(k)),
        ensures
            final(visited)@ == old(visited)@.union(region@),
    {
        let mut y: usize = 0;
        assert(visited@ =~= old(visited)@.union(part_before(region@, 0, 0)));
        while y < self.rows
            invariant
                self.wf(),
                y <= self.rows,
                forall|k: u32| #[trigger]
                    region@.contains(k) ==> self.on_map(column_of(k), row_of(k)),
                visited@ == old(visited)@.union(part_before(region@, 0, y as int)),
            decreases self.rows - y,
        {
            let mut x: usize = 0;
            while x < self.cols
                invariant
                    self.wf(),
                    y < self.rows,
                    x <= self.cols,
                    forall|k: u32| #[trigger]
                        region@.contains(k) ==> self.on_map(column_of(k), row_of(k)),
                    visited@ == old(visited)@.union(part_before(region@, x as int, y as int)),
                decreases self.cols - x,
            {
                let key = x as u32 * 65536 + y as u32;
                let ghost before = visited@;
                if region.contains(&key) {
                    visited.insert(key);
                }
                proof {
                    assert(column_of(key) == x && row_of(key) == y);
                    assert forall|k: u32|
                        part_before(region@, x + 1, y as int).contains(k) == (part_before(
                            region@,
                            x as int,
                            y as int,
                        ).contains(k) || (k == key && region@.contains(key))) by {
                        assert(key_of(column_of(k), row_of(k)) == k);
                    }
                    assert(visited@ =~= old(visited)@.union(part_before(region@, x + 1, y as int)));
                }
                x += 1;
            }
            proof {
                assert forall|k: u32|
                    part_before(region@, x as int, y as int).contains(k) == part_before(
                        region@,
                        0,
                        y + 1,
                    ).contains(k) by {
                    if region@.contains(k) {
                        assert(self.on_map(column_of(k), row_of(k)));
                    }
                }
                assert(visited@ =~= old(visited)@.union(part_before(region@, 0, y + 1)));
            }
            y += 1;
        }
        proof {
            assert forall|k: u32| region@.contains(k) implies part_before(
                region@,
                0,
                y as int,
            ).contains(k) by {
                assert(self.on_map(column_of(k), row_of(k)));
            }
            assert(visited@ =~= old(visited)@.union(region@));
        }
    }

    /// The price of all fences, and their price when sides are paid for;
    /// nothing where a region has more corners without a turn than fences,
    /// or where a price does not fit.
    pub fn prices(&self) -> (result: Option<(usize, usize)>)
        requires
            self.wf(),
        ensures
            result is Some <==> self.sided_before(0, self.rows as int) && self.price() <= usize::MAX
                && self.bulk_price() <= usize::MAX,
            result matches Some(found) ==> found.0 == self.price() && found.1 == self.bulk_price(),
    {
        let ghost cols = self.cols as nat;
        let ghost rows = self.rows as nat;
        let mut part1: usize = 0;
        let mut part2: usize = 0;
        let mut visited: HashSet<u32> = HashSet::new();
        let mut y: usize = 0;
        while y < self.rows
            invariant
                self.wf(),
                y <= self.rows,
                cols == self.cols && rows == self.rows,
                part1 == grid_sum(cols, self.price_at(), y as nat, 0),
                part2 == grid_sum(cols, self.bulk_price_at(), y as nat, 0),
                self.sided_before(0, y as int),
                forall|k: u32| visited@.contains(k) <==> self.seen(k, 0, y as int),
            decreases self.rows - y,
        {
            let mut x: usize = 0;
            while x < self.cols
                invariant
                    self.wf(),
                    y < self.rows,
                    x <= self.cols,
                    cols == self.cols && rows == self.rows,
                    part1 == grid_sum(cols, self.price_at(), y as nat, x as nat),
                    part2 == grid_sum(cols, self.bulk_price_at(), y as nat, x as nat),
                    self.sided_before(x as int, y as int),
                    forall|k: u32| visited@.contains(k) <==> self.seen(k, x as int, y as int),
                decreases self.cols - x,
            {
                let point = Point::new(x as i16, y as i16);
                let key = point.to_key();
                let ghost before = visited@;
                proof {
                    lemma_rows_grow(cols, self.price_at(), y as nat, (x + 1) as nat, rows);
                    lemma_rows_grow(cols, self.bulk_price_at(), y as nat, (x + 1) as nat, rows);
                    assert(self.is_first(x as int, y as int) == !visited@.contains(key));
                }
                if !visited.contains(&key) {
                    let (area, perimeter, region) = self.calculate_region(point);
                    let price = match perimeter.checked_mul(area) {
                        None => {
                            return None;
                        },
                        Some(price) => price,
                    };
                    part1 = match part1.checked_add(price) {
                        None => {
                            return None;
                        },
                        Some(sum) => sum,
                    };
                    let number_of_sides = if area > 2 {
                        let discount = self.calculate_bulk_discount(&region);
                        match perimeter.checked_sub(discount) {
                            None => {
                                proof {
                                    assert(self.sides_of(self.region_of(x as int, y as int)) < 0);
                                    assert(!self.sided_before(0, rows as int));
                                }
                                return None;
                            },
                            Some(sides) => sides,
                        }
                    } else {
                        4
                    };
                    assert(number_of_sides == self.sides_of(self.region_of(x as int, y as int)));
                    let bulk = match number_of_sides.checked_mul(area) {
                        None => {
                            return None;
                        },
                        Some(price) => price,
                    };
                    part2 = match part2.checked_add(bulk) {
                        None => {
                            return None;
                        },
                        Some(sum) => sum,
                    };
                    self.mark_region(&region, &mut visited);
                }
                proof {
                    assert forall|k: u32| visited@.contains(k) <==> self.seen(k, x + 1, y as int) by {
                        if self.seen(k, x + 1, y as int) {
                            let (u, v) = choose|u: int, v: int|
                                self.on_map(u, v) && reads_before(u, v, x + 1, y as int)
                                    && #[trigger] self.joined(u, v, column_of(k), row_of(k));
                            if reads_before(u, v, x as int, y as int) {
                                assert(self.seen(k, x as int, y as int));
                            } else {
                                assert(u == x && v == y);
                                if before.contains(key) {
                                    let (a, b) = choose|a: int, b: int|
                                        self.on_map(a, b) && reads_before(a, b, x as int, y as int)
                                            && #[trigger] self.joined(
                                            a,
                                            b,
                                            column_of(key),
                                            row_of(key),
                                        );
                                    self.lemma_joined_chain(
                                        a,
                                        b,
                                        x as int,
                                        y as int,
                                        column_of(k),
                                        row_of(k),
                                    );
                                    assert(self.seen(k, x as int, y as int));
                                }
                            }
                        }
                        if self.seen(k, x as int, y as int) {
                            let (u, v) = choose|u: int, v: int|
                                self.on_map(u, v) && reads_before(u, v, x as int, y as int)
                                    && #[trigger] self.joined(u, v, column_of(k), row_of(k));
                            assert(reads_before(u, v, x + 1, y as int));
                        }
                        if !before.contains(key) && self.region_of(x as int, y as int).contains(k) {
                            assert(self.joined(x as int, y as int, column_of(k), row_of(k)));
                            assert(reads_before(x as int, y as int, x + 1, y as int));
                        }
                    }
                    assert forall|u: int, v: int|
                        self.on_map(u, v) && reads_before(u, v, x + 1, y as int)
                            && #[trigger] self.is_first(u, v) implies self.sides_of(
                        self.region_of(u, v),
                    ) >= 0 by {
                        if !reads_before(u, v, x as int, y as int) {
                            assert(u == x && v == y);
                        }
                    }
                }
                x += 1;
            }
            proof {
                assert forall|k: u32| self.seen(k, x as int, y as int) == self.seen(k, 0, y + 1) by {
                    if self.seen(k, x as int, y as int) {
                        let (u, v) = choose|u: int, v: int|
                            self.on_map(u, v) && reads_before(u, v, x as int, y as int)
                                && #[trigger] self.joined(u, v, column_of(k), row_of(k));
                        assert(reads_before(u, v, 0, y + 1));
                    }
                    if self.seen(k, 0, y + 1) {
                        let (u, v) = choose|u: int, v: int|
                            self.on_map(u, v) && reads_before(u, v, 0, y + 1) && #[trigger] self.joined(
                                u,
                                v,
                                column_of(k),
                                row_of(k),
                            );
                        assert(reads_before(u, v, x as int, y as int));
                    }
                }
                assert forall|u: int, v: int|
                    self.on_map(u, v) && reads_before(u, v, 0, y + 1) && #[trigger] self.is_first(
                        u,
                        v,
                    ) implies self.sides_of(self.region_of(u, v)) >= 0 by {
                    assert(reads_before(u, v, x as int, y as int));
                }
            }
            y += 1;
        }
        Some((part1, part2))
    }
}

/// The price of all fences of the garden that the text draws, and their
/// price when sides are paid for; nothing where the text holds no carriage
/// return, where the garden is too large or lacks plots, where a region
/// has no number of sides, or where a price does not fit.
pub fn solve(input: &str) -> (result: Option<(usize, usize)>)
    ensures
        result matches Some(found) ==> exists|garden: Garden| #[trigger]
            drawn(input@, garden) && garden.wf() && garden.sided_before(0, garden.rows as int)
                && garden.price() == found.0 && garden.bulk_price() == found.1,
        result is None ==> (forall|n: int| !first_at(input@, '\r', n)) || exists|garden: Garden| #[trigger]
            drawn(input@, garden) && (!garden.wf() || !garden.sided_before(0, garden.rows as int)
                || garden.price() > usize::MAX || garden.bulk_price() > usize::MAX),
{
    let garden = match Garden::from_str(input) {
        Err(_) => {
            return None;
        },
        Ok(garden) => garden,
    };
    assert(drawn(input@, garden));
    if garden.rows > MAX_SIDE || garden.cols > MAX_SIDE {
        return None;
    }
    assert(garden.rows * garden.cols <= 32767 * 32767) by (nonlinear_arith)
        requires
            garden.rows <= 32767,
            garden.cols <= 32767,
    ;
    if garden.rows * garden.cols > garden.data.len() {
        return None;
    }
    garden.prices()
}

} // verus!
