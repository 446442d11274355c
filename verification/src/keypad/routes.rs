//! The search for the shortest routes between two buttons of a keypad.
//!
//! The search goes level by level. At level `k` the frontier holds every
//! route of `k` moves from the start whose end cannot be reached in fewer
//! moves, and `seen` tells which cells can be reached within `k` moves.

use crate::keypad::layout::{
    connects, holds_button, is_move, is_shortest, lemma_head_is_tight, lemma_prefix_is_tight,
    lemma_reach_gives_walk, lemma_reach_is_within, lemma_reach_last_move, lemma_reach_step,
    lemma_shortest_exists, lemma_shortest_iff_tight, lemma_walk_gives_reach,
    lemma_walk_starts_on_button, lemma_within_step, reach, reach_within, route_end, step, walks,
    Cell, GAP,
};
use crate::text::{copy_range, views};
use vstd::prelude::*;

verus! {

/// A route under construction, with the cell that it has reached.
pub struct Work {
    pub x: usize,
    pub y: usize,
    pub route: Vec<char>,
}

impl Work {
    /// The cell that the route has reached.
    pub open spec fn cell(&self) -> Cell {
        Cell { x: self.x as int, y: self.y as int }
    }
}

/// The cell at column `x` of row `y`.
pub open spec fn cell_at(x: usize, y: usize) -> Cell {
    Cell { x: x as int, y: y as int }
}

/// What a list of works holds: for each its cell and its route.
pub open spec fn work_views(works: Seq<Work>) -> Seq<(Cell, Seq<char>)> {
    Seq::new(works.len(), |i: int| (works[i].cell(), works[i].route@))
}

/// The work that one move leads to, if the move ends on a button.
pub open spec fn neighbour(grid: Seq<Seq<char>>, cell: Cell, route: Seq<char>, m: char) -> Seq<
    (Cell, Seq<char>),
> {
    if holds_button(grid, step(cell, m)) {
        seq![(step(cell, m), route.push(m))]
    } else {
        Seq::empty()
    }
}

/// The works that one move leads to, in the order left, right, up, down.
pub open spec fn neighbours(grid: Seq<Seq<char>>, cell: Cell, route: Seq<char>) -> Seq<
    (Cell, Seq<char>),
> {
    neighbour(grid, cell, route, '<') + neighbour(grid, cell, route, '>') + neighbour(
        grid,
        cell,
        route,
        '^',
    ) + neighbour(grid, cell, route, 'v')
}

/// Whether the grid holds a button at column `x` of row `y`.
pub fn is_button_at(grid: &Vec<Vec<char>>, x: usize, y: usize) -> (held: bool)
    ensures
        held == holds_button(views(grid@), cell_at(x, y)),
{
    y < grid.len() && x < grid[y].len() && grid[y][x] != GAP
}

/// A copy of `route` with the symbol `m` at its end.
pub fn extended(route: &Vec<char>, m: char) -> (longer: Vec<char>)
    ensures
        longer@ == route@.push(m),
{
    let mut longer = copy_range(route, 0, route.len());
    assert(route@.subrange(0, route@.len() as int) == route@);
    longer.push(m);
    longer
}

/// The works that one move from `current` leads to: left, right, up and
/// down, without those that would leave the grid or enter the gap.
pub fn get_neighbours(current: &Work, grid: &Vec<Vec<char>>) -> (found: Vec<Work>)
    ensures
        work_views(found@) == neighbours(views(grid@), current.cell(), current.route@),
{
    let ghost g = views(grid@);
    let ghost cell = current.cell();
    let ghost route = current.route@;
    let mut found: Vec<Work> = Vec::new();
    if current.x > 0 && is_button_at(grid, current.x - 1, current.y) {
        found.push(Work { x: current.x - 1, y: current.y, route: extended(&current.route, '<') });
    }
    assert(work_views(found@) == neighbour(g, cell, route, '<'));
    let ghost first = work_views(found@);
    let rows = grid.len();
    if current.y < rows {
        let columns = grid[current.y].len();
        assert(g[cell.y].len() == columns);
    }
    if current.x < usize::MAX && is_button_at(grid, current.x + 1, current.y) {
        found.push(Work { x: current.x + 1, y: current.y, route: extended(&current.route, '>') });
    }
    assert(work_views(found@) == first + neighbour(g, cell, route, '>'));
    let ghost second = work_views(found@);
    if current.y > 0 && is_button_at(grid, current.x, current.y - 1) {
        found.push(Work { x: current.x, y: current.y - 1, route: extended(&current.route, '^') });
    }
    assert(work_views(found@) == second + neighbour(g, cell, route, '^'));
    let ghost third = work_views(found@);
    if current.y < usize::MAX && is_button_at(grid, current.x, current.y + 1) {
        found.push(Work { x: current.x, y: current.y + 1, route: extended(&current.route, 'v') });
    }
    assert(work_views(found@) == third + neighbour(g, cell, route, 'v'));
    found
}

/// Every neighbour is one move onto a button away.
proof fn lemma_neighbour_is_a_move(grid: Seq<Seq<char>>, cell: Cell, route: Seq<char>, t: int) -> (m:
    char)
    requires
        0 <= t < neighbours(grid, cell, route).len(),
    ensures
        is_move(m),
        holds_button(grid, step(cell, m)),
        neighbours(grid, cell, route)[t] == (step(cell, m), route.push(m)),
{
    let a = neighbour(grid, cell, route, '<');
    let b = neighbour(grid, cell, route, '>');
    let c = neighbour(grid, cell, route, '^');
    let d = neighbour(grid, cell, route, 'v');
    if t < a.len() {
        '<'
    } else if t < a.len() + b.len() {
        '>'
    } else if t < a.len() + b.len() + c.len() {
        '^'
    } else {
        'v'
    }
}

/// Every move onto a button is among the neighbours.
proof fn lemma_move_is_a_neighbour(grid: Seq<Seq<char>>, cell: Cell, route: Seq<char>, m: char) -> (t:
    int)
    requires
        is_move(m),
        holds_button(grid, step(cell, m)),
    ensures
        0 <= t < neighbours(grid, cell, route).len(),
        neighbours(grid, cell, route)[t] == (step(cell, m), route.push(m)),
{
    let a = neighbour(grid, cell, route, '<');
    let b = neighbour(grid, cell, route, '>');
    let c = neighbour(grid, cell, route, '^');
    if m == '<' {
        0
    } else if m == '>' {
        a.len() as int
    } else if m == '^' {
        (a.len() + b.len()) as int
    } else {
        (a.len() + b.len() + c.len()) as int
    }
}

/// Whether no two of the works hold the same route.
pub open spec fn routes_differ(works: Seq<Work>) -> bool {
    forall|i: int, j: int|
        0 <= i < j < works.len() ==> (#[trigger] works[i]).route@ != (#[trigger] works[j]).route@
}

/// No two of the neighbours hold the same route: they differ in their last
/// move.
proof fn lemma_neighbours_differ(grid: Seq<Seq<char>>, cell: Cell, route: Seq<char>, s: int, t: int)
    requires
        0 <= s < t < neighbours(grid, cell, route).len(),
    ensures
        neighbours(grid, cell, route)[s].1 != neighbours(grid, cell, route)[t].1,
{
    let a = neighbour(grid, cell, route, '<');
    let b = neighbour(grid, cell, route, '>');
    let c = neighbour(grid, cell, route, '^');
    let d = neighbour(grid, cell, route, 'v');
    let all = neighbours(grid, cell, route);
    assert(route.push('<').last() == '<');
    assert(route.push('>').last() == '>');
    assert(route.push('^').last() == '^');
    assert(route.push('v').last() == 'v');
    assert(all[s].1.last() != all[t].1.last());
}

/// Whether `seen` has a row for each row of the grid, of the same length.
pub open spec fn same_shape(grid: Seq<Seq<char>>, seen: Seq<Vec<Option<usize>>>) -> bool {
    &&& seen.len() == grid.len()
    &&& forall|y: int| 0 <= y < grid.len() ==> (#[trigger] seen[y]).len() == grid[y].len()
}

/// What `seen` holds between two levels: a cell is marked exactly when it
/// can be reached within `k` moves.
pub open spec fn seen_through(
    grid: Seq<Seq<char>>,
    start: Cell,
    seen: Seq<Vec<Option<usize>>>,
    k: nat,
) -> bool {
    forall|x: int, y: int|
        0 <= y < seen.len() && 0 <= x < seen[y].len() ==> match #[trigger] seen[y][x] {
            Some(level) => level <= k && reach_within(grid, start, Cell { x, y }, k as int),
            None => !reach_within(grid, start, Cell { x, y }, k as int),
        }
}

/// What `seen` holds while level `k + 1` is being built: the cells marked
/// with `k + 1` are new, and no unmarked cell can be reached within `k`.
pub open spec fn seen_growing(
    grid: Seq<Seq<char>>,
    start: Cell,
    seen: Seq<Vec<Option<usize>>>,
    k: nat,
) -> bool {
    forall|x: int, y: int|
        0 <= y < seen.len() && 0 <= x < seen[y].len() ==> match #[trigger] seen[y][x] {
            Some(level) => {
                &&& level <= k + 1
                &&& reach_within(grid, start, Cell { x, y }, k as int + 1)
                &&& (level == k + 1 <==> !reach_within(grid, start, Cell { x, y }, k as int))
            },
            None => !reach_within(grid, start, Cell { x, y }, k as int),
        }
}

/// Every route of the frontier has `k` moves, leads from the start to its
/// cell, and that cell cannot be reached in fewer moves.
pub open spec fn level_sound(grid: Seq<Seq<char>>, start: Cell, frontier: Seq<Work>, k: nat) -> bool {
    forall|i: int|
        0 <= i < frontier.len() ==> {
            let w = #[trigger] frontier[i];
            &&& connects(grid, start, w.cell(), w.route@)
            &&& w.route@.len() == k
            &&& !reach_within(grid, start, w.cell(), k - 1)
        }
}

/// Whether one of the works holds `route`.
pub open spec fn holds_route(works: Seq<Work>, route: Seq<char>) -> bool {
    exists|i: int| 0 <= i < works.len() && (#[trigger] works[i]).route@ == route
}

/// The frontier misses no route of `k` moves whose end cannot be reached in
/// fewer moves.
pub open spec fn level_complete(grid: Seq<Seq<char>>, start: Cell, frontier: Seq<Work>, k: nat) -> bool {
    forall|route: Seq<char>|
        (#[trigger] walks(grid, start, route)) && route.len() == k && !reach_within(
            grid,
            start,
            route_end(start, route),
            k - 1,
        ) ==> holds_route(frontier, route)
}

/// Whether the arrival of a route at a button has been dealt with: the
/// button is marked, and where it cannot be reached within `k` moves, the
/// route is in `next`.
pub open spec fn arrival_done(
    grid: Seq<Seq<char>>,
    start: Cell,
    seen: Seq<Vec<Option<usize>>>,
    next: Seq<Work>,
    k: nat,
    arrival: (Cell, Seq<char>),
) -> bool {
    let to = arrival.0;
    &&& seen[to.y][to.x] is Some
    &&& (!reach_within(grid, start, to, k as int) ==> holds_route(next, arrival.1))
}

/// Whether the move `m` from `work` has been dealt with, if it ends on a
/// button.
pub open spec fn move_done(
    grid: Seq<Seq<char>>,
    start: Cell,
    seen: Seq<Vec<Option<usize>>>,
    next: Seq<Work>,
    k: nat,
    work: Work,
    m: char,
) -> bool {
    holds_button(grid, step(work.cell(), m)) ==> arrival_done(
        grid,
        start,
        seen,
        next,
        k,
        (step(work.cell(), m), work.route@.push(m)),
    )
}

/// Whether every move from the first `n` works has been dealt with.
pub open spec fn works_done(
    grid: Seq<Seq<char>>,
    start: Cell,
    seen: Seq<Vec<Option<usize>>>,
    next: Seq<Work>,
    k: nat,
    frontier: Seq<Work>,
    n: int,
) -> bool {
    forall|i: int, m: char|
        0 <= i < n && is_move(m) ==> #[trigger] move_done(grid, start, seen, next, k, frontier[i], m)
}

/// Whether `after` keeps the shape and every mark of `before`.
pub open spec fn keeps_marks(before: Seq<Vec<Option<usize>>>, after: Seq<Vec<Option<usize>>>) -> bool {
    &&& after.len() == before.len()
    &&& forall|y: int| 0 <= y < before.len() ==> (#[trigger] after[y]).len() == before[y].len()
    &&& forall|x: int, y: int|
        0 <= y < before.len() && 0 <= x < before[y].len() && before[y][x] is Some
            ==> #[trigger] after[y][x] is Some
}

/// Whether `after` starts with the works of `before`.
pub open spec fn extends(before: Seq<Work>, after: Seq<Work>) -> bool {
    &&& before.len() <= after.len()
    &&& forall|j: int| 0 <= j < before.len() ==> #[trigger] after[j] == before[j]
}

proof fn lemma_route_stays(before: Seq<Work>, after: Seq<Work>, route: Seq<char>)
    requires
        extends(before, after),
        holds_route(before, route),
    ensures
        holds_route(after, route),
{
    let i = choose|i: int| 0 <= i < before.len() && (#[trigger] before[i]).route@ == route;
    assert(after[i].route@ == route);
}

proof fn lemma_arrival_stays(
    grid: Seq<Seq<char>>,
    start: Cell,
    seen: Seq<Vec<Option<usize>>>,
    next: Seq<Work>,
    later_seen: Seq<Vec<Option<usize>>>,
    later_next: Seq<Work>,
    k: nat,
    arrival: (Cell, Seq<char>),
)
    requires
        same_shape(grid, seen),
        holds_button(grid, arrival.0),
        arrival_done(grid, start, seen, next, k, arrival),
        keeps_marks(seen, later_seen),
        extends(next, later_next),
    ensures
        arrival_done(grid, start, later_seen, later_next, k, arrival),
{
    let to = arrival.0;
    assert(seen[to.y].len() == grid[to.y].len());
    assert(later_seen[to.y][to.x] is Some);
    if !reach_within(grid, start, to, k as int) {
        lemma_route_stays(next, later_next, arrival.1);
    }
}

proof fn lemma_works_stay(
    grid: Seq<Seq<char>>,
    start: Cell,
    seen: Seq<Vec<Option<usize>>>,
    next: Seq<Work>,
    later_seen: Seq<Vec<Option<usize>>>,
    later_next: Seq<Work>,
    k: nat,
    frontier: Seq<Work>,
    n: int,
)
    requires
        same_shape(grid, seen),
        works_done(grid, start, seen, next, k, frontier, n),
        keeps_marks(seen, later_seen),
        extends(next, later_next),
    ensures
        works_done(grid, start, later_seen, later_next, k, frontier, n),
{
    assert forall|i: int, m: char| 0 <= i < n && is_move(m) implies #[trigger] move_done(
        grid,
        start,
        later_seen,
        later_next,
        k,
        frontier[i],
        m,
    ) by {
        assert(move_done(grid, start, seen, next, k, frontier[i], m));
        let to = step(frontier[i].cell(), m);
        if holds_button(grid, to) {
            lemma_arrival_stays(
                grid,
                start,
                seen,
                next,
                later_seen,
                later_next,
                k,
                (to, frontier[i].route@.push(m)),
            );
        }
    }
}

/// Once every move from every work of level `k` has been dealt with, `next`
/// misses no route of level `k + 1`.
proof fn lemma_next_level_complete(
    grid: Seq<Seq<char>>,
    start: Cell,
    frontier: Seq<Work>,
    next: Seq<Work>,
    seen: Seq<Vec<Option<usize>>>,
    k: nat,
)
    requires
        level_sound(grid, start, frontier, k),
        level_complete(grid, start, frontier, k),
        works_done(grid, start, seen, next, k, frontier, frontier.len() as int),
    ensures
        level_complete(grid, start, next, k + 1),
{
    assert forall|route: Seq<char>|
        (#[trigger] walks(grid, start, route)) && route.len() == k + 1 && !reach_within(
            grid,
            start,
            route_end(start, route),
            (k + 1) - 1,
        ) implies holds_route(next, route) by {
        let head = route.drop_last();
        let m = route.last();
        lemma_head_is_tight(grid, start, route);
        assert(walks(grid, start, head));
        assert(holds_route(frontier, head));
        let i = choose|i: int| 0 <= i < frontier.len() && (#[trigger] frontier[i]).route@ == head;
        let w = frontier[i];
        assert(step(w.cell(), m) == route_end(start, route));
        assert(move_done(grid, start, seen, next, k, w, m));
        assert(head.push(m) == route);
    }
}

/// Once every move from every work of level `k` has been dealt with, a cell
/// that is still unmarked cannot be reached within `k + 1` moves.
proof fn lemma_unmarked_is_far(
    grid: Seq<Seq<char>>,
    start: Cell,
    frontier: Seq<Work>,
    next: Seq<Work>,
    seen: Seq<Vec<Option<usize>>>,
    k: nat,
    x: int,
    y: int,
)
    requires
        level_sound(grid, start, frontier, k),
        level_complete(grid, start, frontier, k),
        works_done(grid, start, seen, next, k, frontier, frontier.len() as int),
        0 <= y < seen.len(),
        0 <= x < seen[y].len(),
        seen[y][x] is None,
        !reach_within(grid, start, Cell { x, y }, k as int),
    ensures
        !reach_within(grid, start, Cell { x, y }, k as int + 1),
{
    let to = Cell { x, y };
    if reach(grid, start, to, k + 1) {
        let (before, m) = lemma_reach_last_move(grid, start, to, k + 1);
        if reach_within(grid, start, before, k - 1) {
            lemma_within_step(grid, start, before, m, k - 1);
        }
        let route = lemma_reach_gives_walk(grid, start, before, k);
        assert(walks(grid, start, route));
        assert(holds_route(frontier, route));
        let i = choose|i: int| 0 <= i < frontier.len() && (#[trigger] frontier[i]).route@ == route;
        assert(move_done(grid, start, seen, next, k, frontier[i], m));
    }
}

/// The number of unmarked cells of a row.
pub open spec fn unseen_in(row: Seq<Option<usize>>) -> nat
    decreases row.len(),
{
    if row.len() == 0 {
        0
    } else {
        unseen_in(row.drop_last()) + if row.last() is None {
            1nat
        } else {
            0nat
        }
    }
}

/// The number of unmarked cells.
pub open spec fn unseen_total(seen: Seq<Vec<Option<usize>>>) -> nat
    decreases seen.len(),
{
    if seen.len() == 0 {
        0
    } else {
        unseen_total(seen.drop_last()) + unseen_in(seen.last()@)
    }
}

/// The number of cells of a grid.
pub open spec fn cell_count(grid: Seq<Seq<char>>) -> nat
    decreases grid.len(),
{
    if grid.len() == 0 {
        0
    } else {
        cell_count(grid.drop_last()) + grid.last().len()
    }
}

proof fn lemma_blank_row(row: Seq<Option<usize>>)
    requires
        forall|x: int| 0 <= x < row.len() ==> #[trigger] row[x] is None,
    ensures
        unseen_in(row) == row.len(),
    decreases row.len(),
{
    if row.len() > 0 {
        lemma_blank_row(row.drop_last());
    }
}

pub proof fn lemma_blank_grid(grid: Seq<Seq<char>>, seen: Seq<Vec<Option<usize>>>)
    requires
        same_shape(grid, seen),
        forall|x: int, y: int|
            0 <= y < seen.len() && 0 <= x < seen[y].len() ==> #[trigger] seen[y][x] is None,
    ensures
        unseen_total(seen) == cell_count(grid),
    decreases seen.len(),
{
    if seen.len() > 0 {
        let last = seen.len() - 1;
        assert forall|x: int| 0 <= x < seen[last].len() implies #[trigger] seen.last()@[x] is None by {
            assert(seen[last][x] is None);
        }
        lemma_blank_row(seen.last()@);
        assert forall|y: int| 0 <= y < grid.drop_last().len() implies (#[trigger] seen.drop_last()[y]).len()
            == grid.drop_last()[y].len() by {
            assert(seen[y].len() == grid[y].len());
        }
        assert forall|x: int, y: int|
            0 <= y < seen.drop_last().len() && 0 <= x < seen.drop_last()[y].len() implies #[trigger] seen.drop_last()[y][x] is None by {
            assert(seen[y][x] is None);
        }
        lemma_blank_grid(grid.drop_last(), seen.drop_last());
        assert(seen[last].len() == grid[last].len());
    }
}

proof fn lemma_mark_in_row(row: Seq<Option<usize>>, x: int, level: usize)
    requires
        0 <= x < row.len(),
        row[x] is None,
    ensures
        unseen_in(row.update(x, Some(level))) + 1 == unseen_in(row),
    decreases row.len(),
{
    let marked = row.update(x, Some(level));
    if x == row.len() - 1 {
        assert(marked.drop_last() == row.drop_last());
    } else {
        lemma_mark_in_row(row.drop_last(), x, level);
        assert(marked.drop_last() == row.drop_last().update(x, Some(level)));
    }
}

pub proof fn lemma_mark_in_grid(
    before: Seq<Vec<Option<usize>>>,
    after: Seq<Vec<Option<usize>>>,
    x: int,
    y: int,
    level: usize,
)
    requires
        0 <= y < before.len(),
        0 <= x < before[y].len(),
        before[y][x] is None,
        after.len() == before.len(),
        after[y]@ == before[y]@.update(x, Some(level)),
        forall|j: int| 0 <= j < before.len() && j != y ==> after[j] == before[j],
    ensures
        unseen_total(after) + 1 == unseen_total(before),
    decreases before.len(),
{
    if y == before.len() - 1 {
        assert(after.drop_last() == before.drop_last());
        lemma_mark_in_row(before[y]@, x, level);
    } else {
        lemma_mark_in_grid(before.drop_last(), after.drop_last(), x, y, level);
    }
}

/// A grid of the shape of `grid` in which no cell is marked.
pub fn unseen_grid(grid: &Vec<Vec<char>>) -> (seen: Vec<Vec<Option<usize>>>)
    ensures
        same_shape(views(grid@), seen@),
        forall|x: int, y: int|
            0 <= y < seen.len() && 0 <= x < seen[y].len() ==> #[trigger] seen[y][x] is None,
{
    let mut seen: Vec<Vec<Option<usize>>> = Vec::new();
    let mut y: usize = 0;
    while y < grid.len()
        invariant
            y <= grid.len(),
            seen.len() == y,
            forall|j: int| 0 <= j < y ==> (#[trigger] seen[j]).len() == grid[j].len(),
            forall|i: int, j: int|
                0 <= j < seen.len() && 0 <= i < seen[j].len() ==> #[trigger] seen[j][i] is None,
        decreases grid.len() - y,
    {
        let mut row: Vec<Option<usize>> = Vec::new();
        let mut x: usize = 0;
        while x < grid[y].len()
            invariant
                y < grid.len(),
                x <= grid[y as int].len(),
                row.len() == x,
                forall|i: int| 0 <= i < row.len() ==> #[trigger] row[i] is None,
            decreases grid[y as int].len() - x,
        {
            row.push(None);
            x += 1;
        }
        seen.push(row);
        y += 1;
    }
    seen
}

/// The routes of the works that stand on column `x` of row `y`.
fn routes_to(works: &Vec<Work>, x: usize, y: usize) -> (routes: Vec<Vec<char>>)
    ensures
        forall|r: Seq<char>|
            views(routes@).contains(r) <==> exists|i: int|
                0 <= i < works.len() && (#[trigger] works[i]).cell() == cell_at(x, y) && works[i].route@
                    == r,
        routes_differ(works@) ==> forall|i: int, j: int|
            #![trigger routes[i], routes[j]]
            0 <= i < j < routes.len() ==> routes[i]@ != routes[j]@,
{
    let mut routes: Vec<Vec<char>> = Vec::new();
    let mut n: usize = 0;
    while n < works.len()
        invariant
            n <= works.len(),
            forall|r: Seq<char>|
                views(routes@).contains(r) <==> exists|i: int|
                    0 <= i < n && (#[trigger] works[i]).cell() == cell_at(x, y) && works[i].route@
                        == r,
            routes_differ(works@) ==> forall|i: int, j: int|
                #![trigger routes[i], routes[j]]
                0 <= i < j < routes.len() ==> routes[i]@ != routes[j]@,
        decreases works.len() - n,
    {
        let ghost before = views(routes@);
        let ghost held = routes@;
        if works[n].x == x && works[n].y == y {
            let route = copy_range(&works[n].route, 0, works[n].route.len());
            assert(route@ == works[n as int].route@);
            routes.push(route);
            proof {
                let after = views(routes@);
                assert(after == before.push(works[n as int].route@));
                if routes_differ(works@) {
                    assert forall|i: int, j: int|
                        #![trigger routes[i], routes[j]]
                        0 <= i < j < routes.len() implies routes[i]@ != routes[j]@ by {
                        assert(routes[i] == held[i]);
                        if j < held.len() {
                            assert(routes[j] == held[j]);
                        } else {
                            assert(before[i] == held[i]@);
                            assert(before.contains(held[i]@));
                            let w = choose|w: int|
                                0 <= w < n && (#[trigger] works[w]).cell() == cell_at(x, y)
                                    && works[w].route@ == held[i]@;
                            assert(works[w].route@ != works[n as int].route@);
                        }
                    }
                }
                assert(after[after.len() - 1] == works[n as int].route@);
                assert forall|r: Seq<char>| after.contains(r) implies exists|i: int|
                    0 <= i < n + 1 && (#[trigger] works[i]).cell() == cell_at(x, y)
                        && works[i].route@ == r by {
                    let j = choose|j: int| 0 <= j < after.len() && after[j] == r;
                    if j < before.len() {
                        assert(before[j] == r);
                        assert(before.contains(r));
                    } else {
                        assert(works[n as int].cell() == cell_at(x, y));
                    }
                }
                assert forall|r: Seq<char>|
                    (exists|i: int|
                        0 <= i < n + 1 && (#[trigger] works[i]).cell() == cell_at(x, y)
                            && works[i].route@ == r) implies after.contains(r) by {
                    let i = choose|i: int|
                        0 <= i < n + 1 && (#[trigger] works[i]).cell() == cell_at(x, y)
                            && works[i].route@ == r;
                    if i < n {
                        assert(before.contains(r));
                        let j = choose|j: int| 0 <= j < before.len() && before[j] == r;
                        assert(after[j] == r);
                    } else {
                        assert(after[after.len() - 1] == r);
                    }
                }
            }
        } else {
            proof {
                assert forall|r: Seq<char>|
                    (exists|i: int|
                        0 <= i < n + 1 && (#[trigger] works[i]).cell() == cell_at(x, y)
                            && works[i].route@ == r) implies before.contains(r) by {
                    let i = choose|i: int|
                        0 <= i < n + 1 && (#[trigger] works[i]).cell() == cell_at(x, y)
                            && works[i].route@ == r;
                    assert(i < n);
                }
            }
        }
        n += 1;
    }
    routes
}

/// Marks column `x` of row `y` with `level`.
pub fn mark(seen: &mut Vec<Vec<Option<usize>>>, x: usize, y: usize, level: usize)
    requires
        y < old(seen).len(),
        x < old(seen)[y as int].len(),
    ensures
        final(seen)@.len() == old(seen)@.len(),
        final(seen)@[y as int]@ == old(seen)@[y as int]@.update(x as int, Some(level)),
        forall|j: int| 0 <= j < old(seen)@.len() && j != y ==> final(seen)@[j] == old(seen)@[j],
{
    seen[y][x] = Some(level);
}

/// Builds level `k + 1` from level `k`: every route of the frontier is
/// extended by every move that ends on a button which cannot be reached
/// within `k` moves, and those buttons are marked. The routes of the
/// frontier are taken in their order, the moves from each in the order
/// down, up, right, left.
fn expand(
    grid: &Vec<Vec<char>>,
    Ghost(start): Ghost<Cell>,
    Ghost(k): Ghost<nat>,
    frontier: &Vec<Work>,
    seen: &mut Vec<Vec<Option<usize>>>,
) -> (next: Vec<Work>)
    requires
        same_shape(views(grid@), old(seen)@),
        seen_through(views(grid@), start, old(seen)@, k),
        level_sound(views(grid@), start, frontier@, k),
        level_complete(views(grid@), start, frontier@, k),
        routes_differ(frontier@),
    ensures
        routes_differ(next@),
        same_shape(views(grid@), final(seen)@),
        seen_through(views(grid@), start, final(seen)@, k + 1),
        level_sound(views(grid@), start, next@, k + 1),
        level_complete(views(grid@), start, next@, k + 1),
        unseen_total(final(seen)@) <= unseen_total(old(seen)@),
        next.len() > 0 ==> unseen_total(final(seen)@) < unseen_total(old(seen)@),
{
    let ghost g = views(grid@);
    let ghost total = unseen_total(seen@);
    let mut next: Vec<Work> = Vec::new();
    let ghost mut heads: Seq<int> = Seq::empty();
    let mut i: usize = 0;
    while i < frontier.len()
        invariant
            i <= frontier.len(),
            routes_differ(frontier@),
            routes_differ(next@),
            heads.len() == next.len(),
            forall|q: int|
                0 <= q < next.len() ==> 0 <= #[trigger] heads[q] < i && next[q].route@.drop_last()
                    == frontier[heads[q]].route@,
            g == views(grid@),
            same_shape(g, seen@),
            seen_growing(g, start, seen@, k),
            level_sound(g, start, frontier@, k),
            level_sound(g, start, next@, k + 1),
            works_done(g, start, seen@, next@, k, frontier@, i as int),
            unseen_total(seen@) <= total,
            next.len() > 0 ==> unseen_total(seen@) < total,
            forall|x: int, y: int|
                0 <= y < seen.len() && 0 <= x < seen[y].len() ==> match #[trigger] seen[y][x] {
                    Some(level) => level == k + 1 ==> unseen_total(seen@) < total,
                    None => true,
                },
        decreases frontier.len() - i,
    {
        let work = &frontier[i];
        let mut rest = get_neighbours(work, grid);
        let ghost all = work_views(rest@);
        let ghost mut t: int = 0;
        proof {
            lemma_walk_gives_reach(g, start, work.cell(), work.route@);
            assert forall|q: int, t2: int| 0 <= q < next.len() && 0 <= t2 < all.len() implies (
            #[trigger] next[q]).route@ != (#[trigger] all[t2]).1 by {
                let m2 = lemma_neighbour_is_a_move(g, work.cell(), work.route@, t2);
                assert(all[t2].1.drop_last() == work.route@);
                assert(0 <= heads[q] < i);
                assert(frontier[heads[q]].route@ != frontier[i as int].route@);
            }
        }
        while rest.len() > 0
            invariant
                i < frontier.len(),
                work == frontier@[i as int],
                routes_differ(frontier@),
                routes_differ(next@),
                heads.len() == next.len(),
                forall|q: int|
                    0 <= q < next.len() ==> 0 <= #[trigger] heads[q] <= i
                        && next[q].route@.drop_last() == frontier[heads[q]].route@,
                forall|q: int, t2: int|
                    0 <= q < next.len() && 0 <= t2 < all.len() - t ==> (#[trigger] next[q]).route@ != (
                    #[trigger] all[t2]).1,
                g == views(grid@),
                same_shape(g, seen@),
                seen_growing(g, start, seen@, k),
                level_sound(g, start, frontier@, k),
                level_sound(g, start, next@, k + 1),
                works_done(g, start, seen@, next@, k, frontier@, i as int),
                unseen_total(seen@) <= total,
                next.len() > 0 ==> unseen_total(seen@) < total,
                forall|x: int, y: int|
                    0 <= y < seen.len() && 0 <= x < seen[y].len() ==> match #[trigger] seen[y][x] {
                        Some(level) => level == k + 1 ==> unseen_total(seen@) < total,
                        None => true,
                    },
                all == neighbours(g, work.cell(), work.route@),
                0 <= t <= all.len(),
                work_views(rest@) == all.subrange(0, all.len() - t),
                reach(g, start, work.cell(), k),
                forall|t2: int|
                    all.len() - t <= t2 < all.len() ==> arrival_done(
                        g,
                        start,
                        seen@,
                        next@,
                        k,
                        #[trigger] all[t2],
                    ),
            decreases rest.len(),
        {
            let ghost seen_before = seen@;
            let ghost next_before = next@;
            let ghost at = all.len() - t - 1;
            assert(work_views(rest@).len() == rest@.len());
            assert(all.subrange(0, all.len() - t).len() == all.len() - t);
            assert(work_views(rest@)[at] == all.subrange(0, all.len() - t)[at]);
            let ghost rest_before = rest@;
            let arrival = rest.pop().unwrap();
            assert(work_views(rest@) == all.subrange(0, at)) by {
                assert forall|j: int| 0 <= j < rest@.len() implies work_views(rest@)[j]
                    == all.subrange(0, at)[j] by {
                    assert(rest@[j] == rest_before[j]);
                    assert(work_views(rest_before)[j] == all.subrange(0, all.len() - t)[j]);
                }
            }
            let ghost to = arrival.cell();
            let ghost m = lemma_neighbour_is_a_move(g, work.cell(), work.route@, at);
            assert(to == step(work.cell(), m));
            assert(arrival.route@ == work.route@.push(m));
            assert(holds_button(g, to));
            assert(seen@[to.y].len() == g[to.y].len());
            proof {
                lemma_reach_step(g, start, work.cell(), m, k);
                lemma_reach_is_within(g, start, to, k + 1, k as int + 1);
                assert(arrival.route@.drop_last() == work.route@);
            }
            let level = arrival.route.len();
            let fresh = match seen[arrival.y][arrival.x] {
                None => {
                    mark(seen, arrival.x, arrival.y, level);
                    proof {
                        lemma_mark_in_grid(seen_before, seen@, to.x, to.y, level);
                    }
                    true
                },
                Some(found) => found == level,
            };
            assert(keeps_marks(seen_before, seen@));
            assert(same_shape(g, seen@));
            assert(seen_growing(g, start, seen@, k)) by {
                assert forall|x: int, y: int|
                    0 <= y < seen.len() && 0 <= x < seen[y].len() implies match #[trigger] seen[y][x] {
                    Some(level) => {
                        &&& level <= k + 1
                        &&& reach_within(g, start, Cell { x, y }, k as int + 1)
                        &&& (level == k + 1 <==> !reach_within(g, start, Cell { x, y }, k as int))
                    },
                    None => !reach_within(g, start, Cell { x, y }, k as int),
                } by {
                    if x == to.x && y == to.y {
                    } else {
                        assert(seen[y][x] == seen_before[y][x]);
                    }
                }
            }
            if fresh {
                assert(!reach_within(g, start, to, k as int));
                next.push(arrival);
                assert(extends(next_before, next@));
                assert(next@[next@.len() - 1].route@ == arrival.route@);
                assert(holds_route(next@, arrival.route@));
                proof {
                    heads = heads.push(i as int);
                    assert(arrival.route@ == all[at].1);
                    assert forall|p: int, q: int| 0 <= p < q < next.len() implies (
                    #[trigger] next[p]).route@ != (#[trigger] next[q]).route@ by {
                        assert(next[p] == next_before[p]);
                        if q < next_before.len() {
                            assert(next[q] == next_before[q]);
                        }
                    }
                    assert forall|q: int, t2: int| 0 <= q < next.len() && 0 <= t2 < at implies (
                    #[trigger] next[q]).route@ != (#[trigger] all[t2]).1 by {
                        if q < next_before.len() {
                            assert(next[q] == next_before[q]);
                        } else {
                            lemma_neighbours_differ(g, work.cell(), work.route@, t2, at);
                        }
                    }
                    assert forall|q: int| 0 <= q < next.len() implies 0 <= #[trigger] heads[q] <= i
                        && next[q].route@.drop_last() == frontier[heads[q]].route@ by {
                        if q < next_before.len() {
                            assert(next[q] == next_before[q]);
                        }
                    }
                }
            }
            assert(extends(next_before, next@));
            proof {
                lemma_works_stay(g, start, seen_before, next_before, seen@, next@, k, frontier@, i as int);
                assert forall|t2: int| at <= t2 < all.len() implies arrival_done(
                    g,
                    start,
                    seen@,
                    next@,
                    k,
                    #[trigger] all[t2],
                ) by {
                    if t2 > at {
                        let m2 = lemma_neighbour_is_a_move(g, work.cell(), work.route@, t2);
                        lemma_arrival_stays(
                            g,
                            start,
                            seen_before,
                            next_before,
                            seen@,
                            next@,
                            k,
                            all[t2],
                        );
                    }
                }
                assert forall|x: int, y: int|
                    0 <= y < seen.len() && 0 <= x < seen[y].len() implies match #[trigger] seen[y][x] {
                    Some(level) => level == k + 1 ==> unseen_total(seen@) < total,
                    None => true,
                } by {
                    if x == to.x && y == to.y {
                    } else {
                        assert(seen[y][x] == seen_before[y][x]);
                    }
                }
                t = t + 1;
            }
        }
        proof {
            assert forall|i2: int, m: char| 0 <= i2 < i + 1 && is_move(m) implies #[trigger] move_done(
                g,
                start,
                seen@,
                next@,
                k,
                frontier@[i2],
                m,
            ) by {
                if i2 == i && holds_button(g, step(work.cell(), m)) {
                    let t2 = lemma_move_is_a_neighbour(g, work.cell(), work.route@, m);
                    assert(arrival_done(g, start, seen@, next@, k, all[t2]));
                }
            }
        }
        i += 1;
    }
    proof {
        lemma_next_level_complete(g, start, frontier@, next@, seen@, k);
        assert forall|x: int, y: int|
            0 <= y < seen.len() && 0 <= x < seen[y].len() implies match #[trigger] seen[y][x] {
            Some(level) => level <= k + 1 && reach_within(g, start, Cell { x, y }, (k + 1) as int),
            None => !reach_within(g, start, Cell { x, y }, (k + 1) as int),
        } by {
            if seen[y][x] is None {
                lemma_unmarked_is_far(g, start, frontier@, next@, seen@, k, x, y);
            }
        }
    }
    next
}

/// Every shortest route from the start to the end, as strings of the moves
/// `<`, `>`, `^` and `v`; `None` where no route leads from one to the other
/// over buttons alone.
pub fn find_routes(
    grid: &Vec<Vec<char>>,
    start_x: usize,
    start_y: usize,
    end_x: usize,
    end_y: usize,
) -> (found: Option<Vec<Vec<char>>>)
    ensures
        match found {
            Some(routes) => {
                &&& routes.len() > 0
                &&& forall|r: Seq<char>|
                    views(routes@).contains(r) <==> is_shortest(
                        views(grid@),
                        cell_at(start_x, start_y),
                        cell_at(end_x, end_y),
                        r,
                    )
                &&& forall|i: int, j: int|
                    #![trigger routes[i], routes[j]]
                    0 <= i < j < routes.len() ==> routes[i]@ != routes[j]@
                &&& forall|i: int|
                    0 <= i < routes.len() ==> (#[trigger] routes[i]).len() < cell_count(views(grid@))
            },
            None => forall|r: Seq<char>|
                !connects(views(grid@), cell_at(start_x, start_y), cell_at(end_x, end_y), r),
        },
{
    let ghost g = views(grid@);
    let ghost start = cell_at(start_x, start_y);
    let ghost end = cell_at(end_x, end_y);
    if !is_button_at(grid, start_x, start_y) {
        proof {
            assert forall|r: Seq<char>| !connects(g, start, end, r) by {
                if connects(g, start, end, r) {
                    lemma_walk_starts_on_button(g, start, r);
                }
            }
        }
        return None;
    }
    let mut seen = unseen_grid(grid);
    assert(seen@[start.y].len() == g[start.y].len());
    let ghost blank = seen@;
    mark(&mut seen, start_x, start_y, 0);
    proof {
        lemma_blank_grid(g, blank);
        lemma_mark_in_grid(blank, seen@, start.x, start.y, 0);
    }
    let mut frontier: Vec<Work> = Vec::new();
    frontier.push(Work { x: start_x, y: start_y, route: Vec::new() });
    let ghost mut k: nat = 0;
    proof {
        reveal_with_fuel(reach_within, 2);
        assert(same_shape(g, seen@));
        assert forall|x: int, y: int|
            0 <= y < seen.len() && 0 <= x < seen[y].len() implies match #[trigger] seen[y][x] {
            Some(level) => level <= 0 && reach_within(g, start, Cell { x, y }, 0),
            None => !reach_within(g, start, Cell { x, y }, 0),
        } by {
            if x == start.x && y == start.y {
                assert(Cell { x, y } == start);
            } else {
                assert(seen[y][x] == blank[y][x]);
            }
        }
        assert(frontier@[0].route@ == Seq::<char>::empty());
        assert forall|route: Seq<char>|
            (#[trigger] walks(g, start, route)) && route.len() == 0 implies holds_route(
            frontier@,
            route,
        ) by {
            assert(route == Seq::<char>::empty());
        }
    }
    loop
        invariant
            g == views(grid@),
            start == cell_at(start_x, start_y),
            end == cell_at(end_x, end_y),
            same_shape(g, seen@),
            seen_through(g, start, seen@, k),
            level_sound(g, start, frontier@, k),
            level_complete(g, start, frontier@, k),
            routes_differ(frontier@),
            !reach_within(g, start, end, k - 1),
            frontier.len() > 0 ==> k + unseen_total(seen@) < cell_count(g),
        decreases unseen_total(seen@), frontier.len(),
    {
        if frontier.len() == 0 {
            proof {
                assert forall|r: Seq<char>| !connects(g, start, end, r) by {
                    if connects(g, start, end, r) {
                        let best = lemma_shortest_exists(g, start, end, r);
                        lemma_shortest_iff_tight(g, start, end, best);
                        lemma_walk_gives_reach(g, start, end, best);
                        if best.len() < k {
                            lemma_reach_is_within(g, start, end, best.len(), k - 1);
                        }
                        lemma_prefix_is_tight(g, start, best, k as int);
                        assert(holds_route(frontier@, best.take(k as int)));
                    }
                }
            }
            return None;
        }
        let routes = routes_to(&frontier, end_x, end_y);
        if routes.len() > 0 {
            proof {
                let first = views(routes@)[0];
                assert(views(routes@).contains(first));
                let i0 = choose|i: int|
                    0 <= i < frontier.len() && (#[trigger] frontier[i]).cell() == end
                        && frontier[i].route@ == first;
                assert forall|r: Seq<char>| views(routes@).contains(r) implies is_shortest(
                    g,
                    start,
                    end,
                    r,
                ) by {
                    let i = choose|i: int|
                        0 <= i < frontier.len() && (#[trigger] frontier[i]).cell() == end
                            && frontier[i].route@ == r;
                    lemma_shortest_iff_tight(g, start, end, r);
                }
                assert forall|r: Seq<char>| is_shortest(g, start, end, r) implies views(
                    routes@,
                ).contains(r) by {
                    assert(connects(g, start, end, first));
                    lemma_walk_gives_reach(g, start, end, r);
                    if r.len() < k {
                        lemma_reach_is_within(g, start, end, r.len(), k - 1);
                    }
                    assert(r.len() == k);
                    assert(holds_route(frontier@, r));
                    let i = choose|i: int|
                        0 <= i < frontier.len() && (#[trigger] frontier[i]).route@ == r;
                    assert(frontier[i].cell() == end);
                }
                assert forall|i: int| 0 <= i < routes.len() implies (#[trigger] routes[i]).len()
                    < cell_count(g) by {
                    let r = views(routes@)[i];
                    assert(views(routes@).contains(r));
                    let j = choose|j: int|
                        0 <= j < frontier.len() && (#[trigger] frontier[j]).cell() == end
                            && frontier[j].route@ == r;
                }
            }
            return Some(routes);
        }
        proof {
            if reach(g, start, end, k) {
                let r = lemma_reach_gives_walk(g, start, end, k);
                assert(holds_route(frontier@, r));
                let i = choose|i: int| 0 <= i < frontier.len() && (#[trigger] frontier[i]).route@ == r;
                assert(frontier[i].cell() == end);
                assert(views(routes@).contains(r));
            }
        }
        let next = expand(grid, Ghost(start), Ghost(k), &frontier, &mut seen);
        frontier = next;
        proof {
            k = k + 1;
        }
    }
}

} // verus!
