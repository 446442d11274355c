//! The mathematical model of a keypad: a grid of rows of characters, in
//! which `#` marks the gap, and the routes that can be walked on it.

use vstd::prelude::*;

verus! {

/// The character that marks the gap of a keypad.
pub const GAP: char = '#';

/// The button on which every arm starts and to which a press returns it.
pub const HOME: char = 'A';

/// A position on a grid: column `x` of row `y`.
pub struct Cell {
    pub x: int,
    pub y: int,
}

/// Whether `cell` lies on the grid and is not the gap.
pub open spec fn holds_button(grid: Seq<Seq<char>>, cell: Cell) -> bool {
    &&& 0 <= cell.y < grid.len()
    &&& 0 <= cell.x < grid[cell.y].len()
    &&& grid[cell.y][cell.x] != GAP
}

/// Whether `m` is one of the four move symbols.
pub open spec fn is_move(m: char) -> bool {
    m == '<' || m == '>' || m == '^' || m == 'v'
}

/// The cell that one move leads to. Rows are numbered from the top.
pub open spec fn step(cell: Cell, m: char) -> Cell {
    if m == '<' {
        Cell { x: cell.x - 1, y: cell.y }
    } else if m == '>' {
        Cell { x: cell.x + 1, y: cell.y }
    } else if m == '^' {
        Cell { x: cell.x, y: cell.y - 1 }
    } else if m == 'v' {
        Cell { x: cell.x, y: cell.y + 1 }
    } else {
        cell
    }
}

/// The cell at which `route` ends when it starts at `start`.
pub open spec fn route_end(start: Cell, route: Seq<char>) -> Cell
    decreases route.len(),
{
    if route.len() == 0 {
        start
    } else {
        step(route_end(start, route.drop_last()), route.last())
    }
}

/// Whether `route` can be walked from `start`: it is made of moves, and
/// every cell it stands on, the first included, holds a button.
pub open spec fn walks(grid: Seq<Seq<char>>, start: Cell, route: Seq<char>) -> bool
    decreases route.len(),
{
    if route.len() == 0 {
        holds_button(grid, start)
    } else {
        &&& walks(grid, start, route.drop_last())
        &&& is_move(route.last())
        &&& holds_button(grid, route_end(start, route))
    }
}

/// Whether `route` leads from `from` to `to` without leaving the buttons.
pub open spec fn connects(grid: Seq<Seq<char>>, from: Cell, to: Cell, route: Seq<char>) -> bool {
    walks(grid, from, route) && route_end(from, route) == to
}

/// Whether `route` leads from `from` to `to` and no route that does so is
/// shorter.
pub open spec fn is_shortest(
    grid: Seq<Seq<char>>,
    from: Cell,
    to: Cell,
    route: Seq<char>,
) -> bool {
    &&& connects(grid, from, to, route)
    &&& forall|other: Seq<char>| #[trigger]
        connects(grid, from, to, other) ==> route.len() <= other.len()
}

/// Whether `to` can be reached from `from` in exactly `n` moves.
pub open spec fn reach(grid: Seq<Seq<char>>, from: Cell, to: Cell, n: nat) -> bool
    decreases n,
{
    if n == 0 {
        to == from && holds_button(grid, to)
    } else {
        &&& holds_button(grid, to)
        &&& {
            ||| reach(grid, from, Cell { x: to.x + 1, y: to.y }, (n - 1) as nat)
            ||| reach(grid, from, Cell { x: to.x - 1, y: to.y }, (n - 1) as nat)
            ||| reach(grid, from, Cell { x: to.x, y: to.y + 1 }, (n - 1) as nat)
            ||| reach(grid, from, Cell { x: to.x, y: to.y - 1 }, (n - 1) as nat)
        }
    }
}

/// Whether `to` can be reached from `from` in `n` moves or fewer.
pub open spec fn reach_within(grid: Seq<Seq<char>>, from: Cell, to: Cell, n: int) -> bool
    decreases n + 1,
{
    if n < 0 {
        false
    } else {
        reach(grid, from, to, n as nat) || reach_within(grid, from, to, n - 1)
    }
}

/// A route that can be walked starts on a button.
pub proof fn lemma_walk_starts_on_button(grid: Seq<Seq<char>>, start: Cell, route: Seq<char>)
    requires
        walks(grid, start, route),
    ensures
        holds_button(grid, start),
    decreases route.len(),
{
    if route.len() > 0 {
        lemma_walk_starts_on_button(grid, start, route.drop_last());
    }
}

/// A route of `n` moves shows that its end can be reached in `n` moves.
pub proof fn lemma_walk_gives_reach(grid: Seq<Seq<char>>, from: Cell, to: Cell, route: Seq<char>)
    requires
        connects(grid, from, to, route),
    ensures
        reach(grid, from, to, route.len()),
    decreases route.len(),
{
    if route.len() > 0 {
        let before = route_end(from, route.drop_last());
        lemma_walk_gives_reach(grid, from, before, route.drop_last());
        lemma_reach_step(grid, from, before, route.last(), (route.len() - 1) as nat);
    }
}

/// One more move onto a button extends a reach by one.
pub proof fn lemma_reach_step(grid: Seq<Seq<char>>, from: Cell, at: Cell, m: char, n: nat)
    requires
        reach(grid, from, at, n),
        is_move(m),
        holds_button(grid, step(at, m)),
    ensures
        reach(grid, from, step(at, m), n + 1),
{
    let to = step(at, m);
    if m == '<' {
        assert(at == Cell { x: to.x + 1, y: to.y });
    } else if m == '>' {
        assert(at == Cell { x: to.x - 1, y: to.y });
    } else if m == '^' {
        assert(at == Cell { x: to.x, y: to.y + 1 });
    } else {
        assert(at == Cell { x: to.x, y: to.y - 1 });
    }
}

/// The last move of a reach: the cell before it and the move itself.
pub proof fn lemma_reach_last_move(grid: Seq<Seq<char>>, from: Cell, to: Cell, n: nat) -> (last: (
    Cell,
    char,
))
    requires
        n > 0,
        reach(grid, from, to, n),
    ensures
        reach(grid, from, last.0, (n - 1) as nat),
        is_move(last.1),
        step(last.0, last.1) == to,
        holds_button(grid, to),
{
    let m = (n - 1) as nat;
    let right = Cell { x: to.x + 1, y: to.y };
    let left = Cell { x: to.x - 1, y: to.y };
    let below = Cell { x: to.x, y: to.y + 1 };
    let above = Cell { x: to.x, y: to.y - 1 };
    if reach(grid, from, right, m) {
        (right, '<')
    } else if reach(grid, from, left, m) {
        (left, '>')
    } else if reach(grid, from, below, m) {
        (below, '^')
    } else {
        (above, 'v')
    }
}

/// A cell that can be reached in `n` moves is the end of a route of `n` moves.
pub proof fn lemma_reach_gives_walk(grid: Seq<Seq<char>>, from: Cell, to: Cell, n: nat) -> (route:
    Seq<char>)
    requires
        reach(grid, from, to, n),
    ensures
        connects(grid, from, to, route),
        route.len() == n,
    decreases n,
{
    if n == 0 {
        Seq::<char>::empty()
    } else {
        let (before, last) = lemma_reach_last_move(grid, from, to, n);
        let head = lemma_reach_gives_walk(grid, from, before, (n - 1) as nat);
        let route = head.push(last);
        assert(route.drop_last() == head);
        route
    }
}

/// Every head of a route whose end nothing shorter reaches is such a route
/// itself.
pub proof fn lemma_prefix_is_tight(grid: Seq<Seq<char>>, from: Cell, route: Seq<char>, n: int)
    requires
        walks(grid, from, route),
        !reach_within(grid, from, route_end(from, route), route.len() - 1),
        0 <= n <= route.len(),
    ensures
        walks(grid, from, route.take(n)),
        !reach_within(grid, from, route_end(from, route.take(n)), n - 1),
    decreases route.len() - n,
{
    if n == route.len() {
        assert(route.take(n) == route);
    } else {
        lemma_head_is_tight(grid, from, route);
        lemma_prefix_is_tight(grid, from, route.drop_last(), n);
        assert(route.drop_last().take(n) == route.take(n));
    }
}

/// What can be reached within `n` moves can be reached within any larger
/// number of moves.
pub proof fn lemma_within_grows(grid: Seq<Seq<char>>, from: Cell, to: Cell, n: int, more: int)
    requires
        reach_within(grid, from, to, n),
        n <= more,
    ensures
        reach_within(grid, from, to, more),
    decreases more - n,
{
    if n < more {
        lemma_within_grows(grid, from, to, n, more - 1);
    }
}

/// What can be reached in exactly `n` moves can be reached within `more`.
pub proof fn lemma_reach_is_within(grid: Seq<Seq<char>>, from: Cell, to: Cell, n: nat, more: int)
    requires
        reach(grid, from, to, n),
        n <= more,
    ensures
        reach_within(grid, from, to, more),
{
    lemma_within_grows(grid, from, to, n as int, more);
}

/// Some exact number of moves stands behind every `reach_within`.
pub proof fn lemma_within_exact(grid: Seq<Seq<char>>, from: Cell, to: Cell, n: int) -> (exact: nat)
    requires
        reach_within(grid, from, to, n),
    ensures
        exact <= n,
        reach(grid, from, to, exact),
    decreases n + 1,
{
    if reach(grid, from, to, n as nat) {
        n as nat
    } else {
        lemma_within_exact(grid, from, to, n - 1)
    }
}

/// One more move onto a button extends a `reach_within` by one.
pub proof fn lemma_within_step(grid: Seq<Seq<char>>, from: Cell, at: Cell, m: char, n: int)
    requires
        reach_within(grid, from, at, n),
        is_move(m),
        holds_button(grid, step(at, m)),
    ensures
        reach_within(grid, from, step(at, m), n + 1),
{
    let exact = lemma_within_exact(grid, from, at, n);
    lemma_reach_step(grid, from, at, m, exact);
    lemma_reach_is_within(grid, from, step(at, m), exact + 1, n + 1);
}

/// A route is a shortest one exactly when its end cannot be reached in
/// fewer moves than it has.
pub proof fn lemma_shortest_iff_tight(grid: Seq<Seq<char>>, from: Cell, to: Cell, route: Seq<char>)
    requires
        connects(grid, from, to, route),
    ensures
        is_shortest(grid, from, to, route) <==> !reach_within(grid, from, to, route.len() - 1),
{
    if reach_within(grid, from, to, route.len() - 1) {
        let exact = lemma_within_exact(grid, from, to, route.len() - 1);
        let other = lemma_reach_gives_walk(grid, from, to, exact);
        assert(connects(grid, from, to, other));
    } else {
        assert forall|other: Seq<char>| #[trigger]
            connects(grid, from, to, other) implies route.len() <= other.len() by {
            if other.len() < route.len() {
                lemma_walk_gives_reach(grid, from, to, other);
                lemma_reach_is_within(grid, from, to, other.len(), route.len() - 1);
            }
        }
    }
}

/// If nothing shorter than a route reaches its end, nothing shorter than its
/// head reaches the end of its head.
pub proof fn lemma_head_is_tight(grid: Seq<Seq<char>>, from: Cell, route: Seq<char>)
    requires
        walks(grid, from, route),
        route.len() > 0,
        !reach_within(grid, from, route_end(from, route), route.len() - 1),
    ensures
        !reach_within(grid, from, route_end(from, route.drop_last()), route.len() - 2),
{
    let before = route_end(from, route.drop_last());
    if reach_within(grid, from, before, route.len() - 2) {
        lemma_within_step(grid, from, before, route.last(), route.len() - 2);
    }
}

/// Where any route leads from `from` to `to`, a shortest one does.
pub proof fn lemma_shortest_exists(grid: Seq<Seq<char>>, from: Cell, to: Cell, route: Seq<char>) -> (best:
    Seq<char>)
    requires
        connects(grid, from, to, route),
    ensures
        is_shortest(grid, from, to, best),
        best.len() <= route.len(),
    decreases route.len(),
{
    lemma_shortest_iff_tight(grid, from, to, route);
    if reach_within(grid, from, to, route.len() - 1) {
        let exact = lemma_within_exact(grid, from, to, route.len() - 1);
        let other = lemma_reach_gives_walk(grid, from, to, exact);
        lemma_shortest_exists(grid, from, to, other)
    } else {
        route
    }
}

/// A route that can be walked is made of moves.
pub proof fn lemma_walk_is_moves(grid: Seq<Seq<char>>, start: Cell, route: Seq<char>)
    requires
        walks(grid, start, route),
    ensures
        forall|i: int| 0 <= i < route.len() ==> is_move(#[trigger] route[i]),
    decreases route.len(),
{
    if route.len() > 0 {
        lemma_walk_is_moves(grid, start, route.drop_last());
        assert forall|i: int| 0 <= i < route.len() implies is_move(#[trigger] route[i]) by {
            if i < route.len() - 1 {
                assert(route.drop_last()[i] == route[i]);
            }
        }
    }
}

/// A route walked after another is a route from the start of the first to
/// the end of the second.
pub proof fn lemma_walks_on(grid: Seq<Seq<char>>, from: Cell, first: Seq<char>, second: Seq<char>)
    requires
        walks(grid, from, first),
        walks(grid, route_end(from, first), second),
    ensures
        walks(grid, from, first + second),
        route_end(from, first + second) == route_end(route_end(from, first), second),
    decreases second.len(),
{
    if second.len() == 0 {
        assert(first + second == first);
    } else {
        lemma_walks_on(grid, from, first, second.drop_last());
        assert((first + second).drop_last() == first + second.drop_last());
        assert((first + second).last() == second.last());
    }
}

/// A route that can be walked ends on a button.
pub proof fn lemma_walk_ends_on_button(grid: Seq<Seq<char>>, start: Cell, route: Seq<char>)
    requires
        walks(grid, start, route),
    ensures
        holds_button(grid, route_end(start, route)),
{
}

} // verus!
