//! The keypad with its catalog of routes: for every ordered pair of buttons
//! all the shortest routes from the one to the other, and the one among them
//! that is preferred when a single route has to be chosen.

use crate::keypad::layout::{
    connects, holds_button, is_move, is_shortest, lemma_walk_ends_on_button, lemma_walk_is_moves,
    lemma_walk_starts_on_button, lemma_walks_on, route_end, step, walks, Cell, GAP, HOME,
};
use crate::keypad::routes::{cell_at, cell_count, find_routes};
use crate::text::{char_at, copy_range, lines, lines_of, views};
use vstd::prelude::*;

verus! {

/// The largest number of rows and of columns that a keypad may have.
pub const MAX_SIDE: usize = 127;

/// Whether `key` is a button of the directional keypad.
pub open spec fn is_key(key: char) -> bool {
    key == HOME || is_move(key)
}

/// Whether `keys` is made of buttons of the directional keypad.
pub open spec fn all_keys(keys: Seq<char>) -> bool {
    forall|i: int| 0 <= i < keys.len() ==> is_key(#[trigger] keys[i])
}

/// The column of a button of the directional keypad.
pub open spec fn key_column(key: char) -> int {
    if key == '<' {
        0
    } else if key == '^' || key == 'v' {
        1
    } else {
        2
    }
}

/// The row of a button of the directional keypad.
pub open spec fn key_row(key: char) -> int {
    if key == '^' || key == HOME {
        0
    } else {
        1
    }
}

/// The presses that it takes on the directional keypad to get from one of
/// its buttons to another and press it: one for each column and each row
/// between them, and one for the press.
pub open spec fn pair_rank(from: char, to: char) -> nat {
    let columns = key_column(to) - key_column(from);
    let rows = key_row(to) - key_row(from);
    ((if columns < 0 {
        -columns
    } else {
        columns
    }) + (if rows < 0 {
        -rows
    } else {
        rows
    }) + 1) as nat
}

/// The rank of a sequence: the sum of `pair_rank` over its pairs of
/// neighbouring buttons. The way to its first button does not count.
pub open spec fn rank_of(sequence: Seq<char>) -> nat
    decreases sequence.len(),
{
    if sequence.len() <= 1 {
        0
    } else {
        rank_of(sequence.drop_last()) + pair_rank(
            sequence[sequence.len() - 2],
            sequence[sequence.len() - 1],
        )
    }
}

/// The presses from one button of the directional keypad to another.
fn rank_pair(from_button: char, to_button: char) -> (presses: usize)
    requires
        is_key(from_button),
        is_key(to_button),
    ensures
        presses == pair_rank(from_button, to_button),
        1 <= presses <= 4,
{
    if from_button == to_button {
        1
    } else {
        match (from_button, to_button) {
            ('A', '^') => 2,
            ('A', '>') => 2,
            ('A', 'v') => 3,
            ('A', '<') => 4,
            ('^', 'A') => 2,
            ('^', '>') => 3,
            ('^', 'v') => 2,
            ('^', '<') => 3,
            ('>', 'A') => 2,
            ('>', '^') => 3,
            ('>', 'v') => 2,
            ('>', '<') => 3,
            ('v', 'A') => 3,
            ('v', '^') => 2,
            ('v', '>') => 2,
            ('v', '<') => 2,
            ('<', 'A') => 4,
            ('<', '^') => 3,
            ('<', '>') => 3,
            ('<', 'v') => 2,
            _ => vstd::pervasive::unreached(),
        }
    }
}

/// The rank of a sequence of at least one button of the directional
/// keypad: the lower, the fewer presses it takes to type the sequence one
/// keypad further away.
pub fn rank(sequence: &Vec<char>) -> (result: usize)
    requires
        sequence.len() > 0,
        all_keys(sequence@),
        sequence.len() <= usize::MAX / 4,
    ensures
        result == rank_of(sequence@),
{
    let mut result: usize = 0;
    let mut from_button = sequence[0];
    let mut i: usize = 1;
    assert(sequence@.take(1).len() == 1);
    while i < sequence.len()
        invariant
            1 <= i <= sequence.len(),
            sequence.len() <= usize::MAX / 4,
            all_keys(sequence@),
            from_button == sequence[i - 1],
            result == rank_of(sequence@.take(i as int)),
            result <= 4 * (i - 1),
        decreases sequence.len() - i,
    {
        let to_button = sequence[i];
        proof {
            let longer = sequence@.take(i + 1);
            assert(longer.drop_last() == sequence@.take(i as int));
            assert(longer[longer.len() - 2] == from_button);
            assert(longer[longer.len() - 1] == to_button);
        }
        result += rank_pair(from_button, to_button);
        from_button = to_button;
        i += 1;
    }
    assert(sequence@.take(i as int) == sequence@);
    result
}

/// The move that undoes `m`; any other symbol stands for itself.
pub open spec fn flipped(m: char) -> char {
    if m == '>' {
        '<'
    } else if m == '<' {
        '>'
    } else if m == '^' {
        'v'
    } else if m == 'v' {
        '^'
    } else {
        m
    }
}

/// A route walked backwards: its moves in reverse order, each undone.
pub open spec fn reversed(route: Seq<char>) -> Seq<char> {
    Seq::new(route.len(), |i: int| flipped(route[route.len() - 1 - i]))
}

/// The route that leads back along `route`.
pub fn reverse_route(route: &Vec<char>) -> (back: Vec<char>)
    ensures
        back@ == reversed(route@),
{
    let mut back: Vec<char> = Vec::new();
    let n = route.len();
    let mut i: usize = 0;
    while i < n
        invariant
            n == route.len(),
            i <= n,
            back@ == reversed(route@).take(i as int),
        decreases n - i,
    {
        let c = route[n - 1 - i];
        let undone = match c {
            '>' => '<',
            '<' => '>',
            '^' => 'v',
            'v' => '^',
            c => c,
        };
        back.push(undone);
        assert(back@ == reversed(route@).take(i + 1));
        i += 1;
    }
    assert(reversed(route@).take(n as int) == reversed(route@));
    back
}

/// The routes that lead back along each of `routes_from_to_to`, in the same
/// order.
pub fn reverse_routes(routes_from_to_to: &Vec<Vec<char>>) -> (result: Vec<Vec<char>>)
    ensures
        result.len() == routes_from_to_to.len(),
        forall|i: int|
            0 <= i < result.len() ==> (#[trigger] result[i])@ == reversed(routes_from_to_to[i]@),
{
    let mut result: Vec<Vec<char>> = Vec::new();
    let mut i: usize = 0;
    while i < routes_from_to_to.len()
        invariant
            i <= routes_from_to_to.len(),
            result.len() == i,
            forall|j: int|
                0 <= j < i ==> (#[trigger] result[j])@ == reversed(routes_from_to_to[j]@),
        decreases routes_from_to_to.len() - i,
    {
        result.push(reverse_route(&routes_from_to_to[i]));
        i += 1;
    }
    result
}

/// A route walked backwards leads from its end to its start.
pub proof fn lemma_reversed_connects(grid: Seq<Seq<char>>, a: Cell, b: Cell, route: Seq<char>)
    requires
        connects(grid, a, b, route),
    ensures
        connects(grid, b, a, reversed(route)),
        reversed(route).len() == route.len(),
    decreases route.len(),
{
    if route.len() == 0 {
        assert(reversed(route) == Seq::<char>::empty());
    } else {
        let head = route.drop_last();
        let m = route.last();
        let c = route_end(a, head);
        lemma_reversed_connects(grid, a, c, head);
        lemma_walk_ends_on_button(grid, a, head);
        let first = seq![flipped(m)];
        assert(first.drop_last() == Seq::<char>::empty());
        assert(first.last() == flipped(m));
        assert(is_move(m));
        assert(b == step(c, m));
        assert(step(b, flipped(m)) == c);
        assert(route_end(b, first.drop_last()) == b);
        assert(route_end(b, first) == c);
        assert(walks(grid, b, first.drop_last()));
        assert(walks(grid, b, first));
        lemma_walks_on(grid, b, first, reversed(head));
        assert(reversed(route) == first + reversed(head));
    }
}

/// A route walked backwards twice is the route itself.
pub proof fn lemma_reversed_twice(route: Seq<char>)
    ensures
        reversed(reversed(route)) == route,
{
    assert forall|i: int| 0 <= i < route.len() implies reversed(reversed(route))[i] == route[i] by {
        assert(flipped(flipped(route[i])) == route[i]);
    }
}

/// A shortest route walked backwards is a shortest route back.
pub proof fn lemma_reversed_shortest(grid: Seq<Seq<char>>, a: Cell, b: Cell, route: Seq<char>)
    requires
        is_shortest(grid, a, b, route),
    ensures
        is_shortest(grid, b, a, reversed(route)),
{
    lemma_reversed_connects(grid, a, b, route);
    assert forall|other: Seq<char>| #[trigger]
        connects(grid, b, a, other) implies reversed(route).len() <= other.len() by {
        lemma_reversed_connects(grid, b, a, other);
        assert(connects(grid, a, b, reversed(other)));
    }
}

/// Whether `best` is the first of `options` among those of the least rank.
pub open spec fn is_best(options: Seq<Seq<char>>, best: Seq<char>) -> bool {
    exists|n: int|
        {
            &&& 0 <= n < options.len()
            &&& #[trigger] options[n] == best
            &&& forall|j: int|
                0 <= j < options.len() ==> rank_of(best) <= rank_of(#[trigger] options[j])
            &&& forall|j: int| 0 <= j < n ==> rank_of(best) < rank_of(#[trigger] options[j])
        }
}

/// Whether a list of sequences can be ranked: each is made of at least one
/// button of the directional keypad and is short enough for its rank to be
/// counted.
pub open spec fn rankable(options: Seq<Vec<char>>) -> bool {
    forall|t: int|
        0 <= t < options.len() ==> all_keys((#[trigger] options[t])@) && 0 < options[t].len()
            <= usize::MAX / 4
}

/// Whether no sequence stands twice in the list.
pub open spec fn all_differ(options: Seq<Seq<char>>) -> bool {
    forall|m: int, n: int|
        #![trigger options[m], options[n]]
        0 <= m < n < options.len() ==> options[m] != options[n]
}

/// The place of the first of `options` among those of the least rank.
fn best_of(options: &Vec<Vec<char>>) -> (n: usize)
    requires
        options.len() > 0,
        rankable(options@),
    ensures
        n < options.len(),
        is_best(views(options@), options[n as int]@),
{
    let mut n: usize = 0;
    let mut least = rank(&options[0]);
    let mut t: usize = 1;
    while t < options.len()
        invariant
            1 <= t <= options.len(),
            n < t,
            rankable(options@),
            least == rank_of(options[n as int]@),
            forall|j: int| 0 <= j < t ==> least <= rank_of((#[trigger] options[j])@),
            forall|j: int| 0 <= j < n ==> least < rank_of((#[trigger] options[j])@),
        decreases options.len() - t,
    {
        let found = rank(&options[t]);
        if found < least {
            least = found;
            n = t;
        }
        t += 1;
    }
    proof {
        let all = views(options@);
        assert(all[n as int] == options[n as int]@);
        assert forall|j: int| 0 <= j < all.len() implies rank_of(options[n as int]@) <= rank_of(
            #[trigger] all[j],
        ) by {
            assert(all[j] == options[j]@);
        }
        assert forall|j: int| 0 <= j < n implies rank_of(options[n as int]@) < rank_of(
            #[trigger] all[j],
        ) by {
            assert(all[j] == options[j]@);
        }
    }
    n
}

/// What one button knows of the keypad: its own label and place, and for
/// every button, by its number, the shortest routes that lead there and the
/// preferred one among them.
pub struct SequenceCache {
    pub label: char,
    pub x: usize,
    pub y: usize,
    pub sequences_to_button: Vec<Vec<Vec<char>>>,
    pub best_sequence_to_button: Vec<Vec<char>>,
}

impl SequenceCache {
    /// The cell of the button.
    pub open spec fn cell(&self) -> Cell {
        cell_at(self.x, self.y)
    }

    /// The routes to the button of number `j`.
    pub open spec fn routes_to(&self, j: int) -> Seq<Seq<char>> {
        views(self.sequences_to_button@[j]@)
    }

    /// Holds the routes from one button, and picks for each destination the
    /// first route of the least rank. Where a single route leads to a
    /// destination, as the empty route does to the button itself, it is taken
    /// without being ranked.
    pub fn new(label: char, x: usize, y: usize, routes: Vec<Vec<Vec<char>>>) -> (cache:
        SequenceCache)
        requires
            forall|j: int|
                0 <= j < routes.len() ==> (#[trigger] routes[j]).len() > 0 && (routes[j].len() == 1
                    || rankable(routes[j]@)),
        ensures
            cache.label == label,
            cache.x == x,
            cache.y == y,
            cache.sequences_to_button == routes,
            cache.best_sequence_to_button.len() == routes.len(),
            forall|j: int|
                0 <= j < routes.len() ==> is_best(
                    views(routes[j]@),
                    (#[trigger] cache.best_sequence_to_button[j])@,
                ),
    {
        let mut best_route_to_other_buttons: Vec<Vec<char>> = Vec::new();
        let mut j: usize = 0;
        while j < routes.len()
            invariant
                j <= routes.len(),
                best_route_to_other_buttons.len() == j,
                forall|j: int|
                    0 <= j < routes.len() ==> (#[trigger] routes[j]).len() > 0 && (routes[j].len()
                        == 1 || rankable(routes[j]@)),
                forall|t: int|
                    0 <= t < j ==> is_best(
                        views(routes[t]@),
                        (#[trigger] best_route_to_other_buttons[t])@,
                    ),
            decreases routes.len() - j,
        {
            let options = &routes[j];
            let n = if options.len() == 1 {
                assert(views(options@)[0] == options[0]@);
                0
            } else {
                best_of(options)
            };
            let best = copy_range(&options[n], 0, options[n].len());
            assert(best@ == options[n as int]@);
            best_route_to_other_buttons.push(best);
            j += 1;
        }
        SequenceCache {
            label,
            x,
            y,
            sequences_to_button: routes,
            best_sequence_to_button: best_route_to_other_buttons,
        }
    }
}

/// A button of a layout: its label and its place.
pub struct Spot {
    pub label: char,
    pub x: usize,
    pub y: usize,
}

impl Spot {
    /// The cell of the button.
    pub open spec fn cell(&self) -> Cell {
        cell_at(self.x, self.y)
    }
}

/// Why a layout is not a keypad.
#[derive(Debug)]
pub enum KeypadError {
    /// There is no row, the rows differ in length, or there are more than
    /// `MAX_SIDE` rows or columns.
    Malformed,
    /// Two buttons carry this label.
    DuplicateButton(char),
    /// No route leads from the first of these buttons to the second.
    Unreachable(char, char),
}

/// The character at a cell of the grid.
pub open spec fn label_at(grid: Seq<Seq<char>>, cell: Cell) -> char {
    grid[cell.y][cell.x]
}

/// Whether the grid is a rectangle of at least one row, with at most
/// `MAX_SIDE` rows and columns.
pub open spec fn well_shaped(grid: Seq<Seq<char>>) -> bool {
    &&& 0 < grid.len() <= MAX_SIDE
    &&& grid[0].len() <= MAX_SIDE
    &&& forall|y: int| 0 <= y < grid.len() ==> (#[trigger] grid[y]).len() == grid[0].len()
}

/// Whether two different buttons carry `label`.
pub open spec fn duplicated(grid: Seq<Seq<char>>, label: char) -> bool {
    exists|a: Cell, b: Cell|
        #![trigger holds_button(grid, a), holds_button(grid, b)]
        {
            &&& holds_button(grid, a)
            &&& holds_button(grid, b)
            &&& a != b
            &&& label_at(grid, a) == label
            &&& label_at(grid, b) == label
        }
}

/// Whether some label is carried by two different buttons.
pub open spec fn has_duplicate(grid: Seq<Seq<char>>) -> bool {
    exists|label: char| duplicated(grid, label)
}

/// Whether some route leads from `a` to `b`.
pub open spec fn joined(grid: Seq<Seq<char>>, a: Cell, b: Cell) -> bool {
    exists|route: Seq<char>| connects(grid, a, b, route)
}

/// Whether a route leads from every button to every button.
pub open spec fn is_connected(grid: Seq<Seq<char>>) -> bool {
    forall|a: Cell, b: Cell|
        #![trigger holds_button(grid, a), holds_button(grid, b)]
        holds_button(grid, a) && holds_button(grid, b) ==> joined(grid, a, b)
}

/// Whether `spots` lists the buttons of the grid, each once and with its
/// label.
pub open spec fn lists_spots(grid: Seq<Seq<char>>, spots: Seq<Spot>) -> bool {
    &&& forall|i: int|
        0 <= i < spots.len() ==> holds_button(grid, (#[trigger] spots[i]).cell()) && label_at(
            grid,
            spots[i].cell(),
        ) == spots[i].label
    &&& forall|i: int, j: int|
        0 <= i < j < spots.len() ==> (#[trigger] spots[i]).cell() != (#[trigger] spots[j]).cell()
    &&& forall|cell: Cell| #[trigger]
        holds_button(grid, cell) ==> exists|i: int|
            0 <= i < spots.len() && (#[trigger] spots[i]).cell() == cell
}

/// Whether the routes from button `i` to button `j` are the shortest ones,
/// each once, and the preferred one is the best of them.
pub open spec fn catalogued(grid: Seq<Seq<char>>, buttons: Seq<SequenceCache>, i: int, j: int) -> bool {
    let routes = buttons[i].routes_to(j);
    &&& routes.len() > 0
    &&& all_differ(routes)
    &&& forall|r: Seq<char>|
        routes.contains(r) <==> is_shortest(grid, buttons[i].cell(), buttons[j].cell(), r)
    &&& is_best(routes, buttons[i].best_sequence_to_button@[j]@)
}

/// A keypad: the grid of its buttons, and what each button knows of the
/// others.
pub struct Keypad {
    pub grid: Vec<Vec<char>>,
    pub buttons: Vec<SequenceCache>,
}

/// Whether the rows of the grid form a rectangle that is not too large.
fn is_well_shaped(grid: &Vec<Vec<char>>) -> (shaped: bool)
    ensures
        shaped == well_shaped(views(grid@)),
{
    let ghost g = views(grid@);
    if grid.len() == 0 || grid.len() > MAX_SIDE {
        return false;
    }
    let width = grid[0].len();
    assert(g[0].len() == width);
    if width > MAX_SIDE {
        return false;
    }
    let mut y: usize = 1;
    while y < grid.len()
        invariant
            1 <= y <= grid.len(),
            g == views(grid@),
            width == g[0].len(),
            forall|j: int| 0 <= j < y ==> (#[trigger] g[j]).len() == width,
        decreases grid.len() - y,
    {
        if grid[y].len() != width {
            assert(g[y as int].len() != g[0].len());
            return false;
        }
        assert(g[y as int].len() == width);
        y += 1;
    }
    true
}

/// Whether `cell` comes before column `x` of row `y` in reading order.
pub open spec fn comes_before(cell: Cell, x: int, y: int) -> bool {
    cell.y < y || (cell.y == y && cell.x < x)
}

/// The buttons of the grid in reading order.
fn collect_buttons(grid: &Vec<Vec<char>>) -> (spots: Vec<Spot>)
    ensures
        lists_spots(views(grid@), spots@),
{
    let ghost g = views(grid@);
    let mut spots: Vec<Spot> = Vec::new();
    let mut y: usize = 0;
    while y < grid.len()
        invariant
            y <= grid.len(),
            g == views(grid@),
            forall|i: int|
                0 <= i < spots.len() ==> holds_button(g, (#[trigger] spots[i]).cell()) && label_at(
                    g,
                    spots[i].cell(),
                ) == spots[i].label && comes_before(spots[i].cell(), 0, y as int),
            forall|i: int, j: int|
                0 <= i < j < spots.len() ==> (#[trigger] spots[i]).cell() != (
                #[trigger] spots[j]).cell(),
            forall|cell: Cell| #[trigger]
                holds_button(g, cell) && comes_before(cell, 0, y as int) ==> exists|i: int|
                    0 <= i < spots.len() && (#[trigger] spots[i]).cell() == cell,
        decreases grid.len() - y,
    {
        let mut x: usize = 0;
        assert(g[y as int].len() == grid[y as int].len());
        while x < grid[y].len()
            invariant
                y < grid.len(),
                x <= grid[y as int].len(),
                g == views(grid@),
                forall|i: int|
                    0 <= i < spots.len() ==> holds_button(g, (#[trigger] spots[i]).cell())
                        && label_at(g, spots[i].cell()) == spots[i].label && comes_before(
                        spots[i].cell(),
                        x as int,
                        y as int,
                    ),
                forall|i: int, j: int|
                    0 <= i < j < spots.len() ==> (#[trigger] spots[i]).cell() != (
                    #[trigger] spots[j]).cell(),
                forall|cell: Cell| #[trigger]
                    holds_button(g, cell) && comes_before(cell, x as int, y as int) ==> exists|
                        i: int,
                    |
                        0 <= i < spots.len() && (#[trigger] spots[i]).cell() == cell,
            decreases grid[y as int].len() - x,
        {
            let label = char_at(&grid[y], x);
            let ghost before = spots@;
            assert(g[y as int][x as int] == label);
            if label != GAP {
                spots.push(Spot { label, x, y });
                assert(spots@[before.len() as int].cell() == cell_at(x, y));
            }
            proof {
                assert forall|cell: Cell| #[trigger]
                    holds_button(g, cell) && comes_before(
                        cell,
                        x + 1,
                        y as int,
                    ) implies exists|i: int|
                    0 <= i < spots.len() && (#[trigger] spots[i]).cell() == cell by {
                    if comes_before(cell, x as int, y as int) {
                        let i = choose|i: int|
                            0 <= i < before.len() && (#[trigger] before[i]).cell() == cell;
                        assert(spots[i].cell() == cell);
                    } else {
                        assert(cell == cell_at(x, y));
                        assert(spots@[before.len() as int].cell() == cell);
                    }
                }
            }
            x += 1;
        }
        proof {
            assert forall|cell: Cell| #[trigger]
                holds_button(g, cell) && comes_before(cell, 0, y + 1) implies exists|i: int|
                0 <= i < spots.len() && (#[trigger] spots[i]).cell() == cell by {
                assert(comes_before(cell, x as int, y as int));
            }
        }
        y += 1;
    }
    spots
}

/// The places of two buttons that carry the same label, if there are any.
fn find_duplicate(spots: &Vec<Spot>) -> (found: Option<(usize, usize)>)
    ensures
        match found {
            Some((i, j)) => i < j < spots.len() && spots[i as int].label == spots[j as int].label,
            None => forall|i: int, j: int|
                0 <= i < j < spots.len() ==> (#[trigger] spots[i]).label != (
                #[trigger] spots[j]).label,
        },
{
    let mut j: usize = 0;
    while j < spots.len()
        invariant
            j <= spots.len(),
            forall|a: int, b: int|
                0 <= a < b < j ==> (#[trigger] spots[a]).label != (#[trigger] spots[b]).label,
        decreases spots.len() - j,
    {
        let mut i: usize = 0;
        while i < j
            invariant
                i <= j < spots.len(),
                forall|a: int| 0 <= a < i ==> (#[trigger] spots[a]).label != spots[j as int].label,
            decreases j - i,
        {
            if spots[i].label == spots[j].label {
                return Some((i, j));
            }
            i += 1;
        }
        j += 1;
    }
    None
}

/// Whether the table holds the shortest routes from button `a` to button
/// `b`: at least one, each once, and where there are several, all of them
/// fit to be ranked.
pub open spec fn routed(
    grid: Seq<Seq<char>>,
    spots: Seq<Spot>,
    table: Seq<Vec<Vec<Vec<char>>>>,
    a: int,
    b: int,
) -> bool {
    let routes = table[a][b];
    &&& routes.len() > 0
    &&& routes.len() == 1 || rankable(routes@)
    &&& all_differ(views(routes@))
    &&& forall|r: Seq<char>|
        views(routes@).contains(r) <==> is_shortest(grid, spots[a].cell(), spots[b].cell(), r)
}

/// Whether the table has `n` rows of `n` entries.
pub open spec fn is_square(table: Seq<Vec<Vec<Vec<char>>>>, n: int) -> bool {
    &&& table.len() == n
    &&& forall|a: int| 0 <= a < n ==> (#[trigger] table[a]).len() == n
}

/// A table of `n` rows of `n` entries without routes.
fn empty_table(n: usize) -> (table: Vec<Vec<Vec<Vec<char>>>>)
    ensures
        is_square(table@, n as int),
{
    let mut table: Vec<Vec<Vec<Vec<char>>>> = Vec::new();
    let mut a: usize = 0;
    while a < n
        invariant
            a <= n,
            table.len() == a,
            forall|i: int| 0 <= i < a ==> (#[trigger] table[i]).len() == n,
        decreases n - a,
    {
        let mut row: Vec<Vec<Vec<char>>> = Vec::new();
        let mut b: usize = 0;
        while b < n
            invariant
                b <= n,
                row.len() == b,
            decreases n - b,
        {
            row.push(Vec::new());
            b += 1;
        }
        table.push(row);
        a += 1;
    }
    table
}

/// Puts the routes from button `a` to button `b` into the table.
fn set_routes(table: &mut Vec<Vec<Vec<Vec<char>>>>, a: usize, b: usize, routes: Vec<Vec<char>>)
    requires
        a < old(table).len(),
        b < old(table)[a as int].len(),
    ensures
        final(table)@.len() == old(table)@.len(),
        final(table)@[a as int]@ == old(table)@[a as int]@.update(b as int, routes),
        forall|i: int| 0 <= i < old(table)@.len() && i != a ==> final(table)@[i] == old(table)@[i],
{
    table[a][b] = routes;
}

/// The routes back along the shortest routes from `a` to `b` are the
/// shortest routes from `b` to `a`.
proof fn lemma_routes_back(
    grid: Seq<Seq<char>>,
    a: Cell,
    b: Cell,
    forth: Seq<Vec<char>>,
    back: Seq<Vec<char>>,
)
    requires
        forth.len() > 0,
        rankable(forth),
        all_differ(views(forth)),
        forall|r: Seq<char>| views(forth).contains(r) <==> is_shortest(grid, a, b, r),
        back.len() == forth.len(),
        forall|i: int| 0 <= i < back.len() ==> (#[trigger] back[i])@ == reversed(forth[i]@),
    ensures
        rankable(back),
        all_differ(views(back)),
        forall|r: Seq<char>| views(back).contains(r) <==> is_shortest(grid, b, a, r),
{
    assert forall|m: int, n: int|
        #![trigger views(back)[m], views(back)[n]]
        0 <= m < n < views(back).len() implies views(back)[m] != views(back)[n] by {
        lemma_reversed_twice(forth[m]@);
        lemma_reversed_twice(forth[n]@);
        assert(views(forth)[m] != views(forth)[n]);
    }
    assert forall|t: int| 0 <= t < back.len() implies all_keys((#[trigger] back[t])@) && 0
        < back[t].len() <= usize::MAX / 4 by {
        assert(all_keys(forth[t]@));
        assert forall|i: int| 0 <= i < back[t]@.len() implies is_key(#[trigger] back[t]@[i]) by {
            assert(is_key(forth[t]@[forth[t]@.len() - 1 - i]));
        }
    }
    assert forall|r: Seq<char>| views(back).contains(r) implies is_shortest(grid, b, a, r) by {
        let n = choose|n: int| 0 <= n < views(back).len() && views(back)[n] == r;
        assert(views(forth)[n] == forth[n]@);
        assert(views(forth).contains(forth[n]@));
        lemma_reversed_shortest(grid, a, b, forth[n]@);
    }
    assert forall|r: Seq<char>| is_shortest(grid, b, a, r) implies views(back).contains(r) by {
        lemma_reversed_shortest(grid, b, a, r);
        assert(views(forth).contains(reversed(r)));
        let n = choose|n: int| 0 <= n < views(forth).len() && views(forth)[n] == reversed(r);
        lemma_reversed_twice(r);
        assert(views(back)[n] == r);
    }
}

/// From a button to itself the empty route alone is a shortest one.
proof fn lemma_one_way_to_stay(grid: Seq<Seq<char>>, at: Cell, routes: Seq<Seq<char>>)
    requires
        routes.len() > 0,
        all_differ(routes),
        forall|r: Seq<char>| routes.contains(r) <==> is_shortest(grid, at, at, r),
    ensures
        routes.len() == 1,
        routes[0].len() == 0,
{
    let stay = Seq::<char>::empty();
    assert forall|t: int| 0 <= t < routes.len() implies (#[trigger] routes[t]) == stay by {
        assert(routes.contains(routes[t]));
        lemma_walk_starts_on_button(grid, at, routes[t]);
        assert(connects(grid, at, at, stay));
    }
    if routes.len() > 1 {
        assert(routes[0] == stay);
        assert(routes[1] == stay);
    }
}

/// The shortest routes between every two buttons: from each button to those
/// that follow it by search, and back along the same routes. Where no route
/// leads from one button to another, their numbers.
fn all_routes(grid: &Vec<Vec<char>>, spots: &Vec<Spot>) -> (result: Result<
    Vec<Vec<Vec<Vec<char>>>>,
    (usize, usize),
>)
    requires
        well_shaped(views(grid@)),
        lists_spots(views(grid@), spots@),
    ensures
        match result {
            Ok(table) => {
                &&& is_square(table@, spots.len() as int)
                &&& forall|a: int, b: int|
                    0 <= a < spots.len() && 0 <= b < spots.len() ==> #[trigger] routed(
                        views(grid@),
                        spots@,
                        table@,
                        a,
                        b,
                    )
            },
            Err((a, b)) => a < spots.len() && b < spots.len() && !joined(
                views(grid@),
                spots[a as int].cell(),
                spots[b as int].cell(),
            ),
        },
{
    let ghost g = views(grid@);
    let n = spots.len();
    let mut table = empty_table(n);
    let mut i: usize = 0;
    while i < n
        invariant
            i <= n,
            n == spots.len(),
            g == views(grid@),
            well_shaped(g),
            lists_spots(g, spots@),
            is_square(table@, n as int),
            forall|a: int, b: int|
                0 <= a < n && 0 <= b < n && (a < i || b < i) ==> #[trigger] routed(
                    g,
                    spots@,
                    table@,
                    a,
                    b,
                ),
        decreases n - i,
    {
        let from = &spots[i];
        let mut j: usize = i;
        while j < n
            invariant
                i <= j <= n,
                i < n,
                n == spots.len(),
                from == spots[i as int],
                g == views(grid@),
                well_shaped(g),
                lists_spots(g, spots@),
                is_square(table@, n as int),
                forall|a: int, b: int|
                    0 <= a < n && 0 <= b < n && (a < i || b < i || (a == i && b < j) || (b == i && a
                        < j)) ==> #[trigger] routed(g, spots@, table@, a, b),
            decreases n - j,
        {
            let to = &spots[j];
            let forth = match find_routes(grid, from.x, from.y, to.x, to.y) {
                None => {
                    return Err((i, j));
                },
                Some(forth) => forth,
            };
            proof {
                lemma_cell_count(g);
                assert forall|m: int, n: int|
                    #![trigger views(forth@)[m], views(forth@)[n]]
                    0 <= m < n < views(forth@).len() implies views(forth@)[m] != views(forth@)[n] by {
                    assert(forth[m]@ != forth[n]@);
                }
                if i == j {
                    lemma_one_way_to_stay(g, from.cell(), views(forth@));
                } else {
                    assert(from.cell() != to.cell());
                    assert forall|t: int| 0 <= t < forth.len() implies all_keys(
                        (#[trigger] forth[t])@,
                    ) && 0 < forth[t].len() <= usize::MAX / 4 by {
                        let r = views(forth@)[t];
                        assert(views(forth@).contains(r));
                        lemma_walk_is_moves(g, from.cell(), r);
                    }
                }
            }
            let ghost before = table@;
            if i == j {
                set_routes(&mut table, i, j, forth);
            } else {
                let back = reverse_routes(&forth);
                proof {
                    lemma_routes_back(g, from.cell(), to.cell(), forth@, back@);
                }
                set_routes(&mut table, i, j, forth);
                set_routes(&mut table, j, i, back);
            }
            proof {
                assert(is_square(table@, n as int));
                assert forall|a: int, b: int|
                    0 <= a < n && 0 <= b < n && (a < i || b < i || (a == i && b < j + 1) || (b == i
                        && a < j + 1)) implies #[trigger] routed(g, spots@, table@, a, b) by {
                    if (a == i && b == j) || (a == j && b == i) {
                    } else {
                        assert(routed(g, spots@, before, a, b));
                        assert(table@[a][b] == before[a][b]);
                    }
                }
            }
            j += 1;
        }
        i += 1;
    }
    Ok(table)
}

/// A rectangle has as many cells as its rows times its columns, and a
/// keypad has few enough for the rank of a route to be counted.
proof fn lemma_cell_count(grid: Seq<Seq<char>>)
    requires
        well_shaped(grid),
    ensures
        cell_count(grid) <= MAX_SIDE * MAX_SIDE,
{
    lemma_cell_count_rows(grid, grid.len() as int);
    assert(grid.take(grid.len() as int) == grid);
    assert(grid.len() * grid[0].len() <= MAX_SIDE * MAX_SIDE) by (nonlinear_arith)
        requires
            grid.len() <= MAX_SIDE,
            grid[0].len() <= MAX_SIDE,
    ;
}

proof fn lemma_cell_count_rows(grid: Seq<Seq<char>>, n: int)
    requires
        0 <= n <= grid.len(),
        grid.len() > 0,
        forall|y: int| 0 <= y < grid.len() ==> (#[trigger] grid[y]).len() == grid[0].len(),
    ensures
        cell_count(grid.take(n)) == n * grid[0].len(),
    decreases n,
{
    if n == 0 {
        assert(0 * grid[0].len() == 0);
    } else {
        lemma_cell_count_rows(grid, n - 1);
        assert(grid.take(n).drop_last() == grid.take(n - 1));
        assert(grid.take(n).last() == grid[n - 1]);
        assert(n * grid[0].len() == (n - 1) * grid[0].len() + grid[0].len()) by (nonlinear_arith);
    }
}

impl Keypad {
    /// The grid as rows of characters.
    pub open spec fn grid_view(&self) -> Seq<Seq<char>> {
        views(self.grid@)
    }

    /// The buttons with their labels and places.
    pub open spec fn spots(&self) -> Seq<Spot> {
        Seq::new(
            self.buttons.len() as nat,
            |i: int| Spot { label: self.buttons[i].label, x: self.buttons[i].x, y: self.buttons[i].y },
        )
    }

    /// Whether the keypad has a button with this label.
    pub open spec fn has_button(&self, label: char) -> bool {
        exists|i: int| 0 <= i < self.buttons.len() && (#[trigger] self.buttons[i]).label == label
    }

    /// Whether every symbol of `sequence` is the label of a button.
    pub open spec fn has_buttons(&self, sequence: Seq<char>) -> bool {
        forall|i: int| 0 <= i < sequence.len() ==> self.has_button(#[trigger] sequence[i])
    }

    /// The number of the button with this label.
    pub open spec fn number_of(&self, label: char) -> int {
        choose|i: int| 0 <= i < self.buttons.len() && (#[trigger] self.buttons[i]).label == label
    }

    /// The cell of the button with this label.
    pub open spec fn cell_of(&self, label: char) -> Cell {
        self.buttons[self.number_of(label)].cell()
    }

    /// The catalog: the routes from one button to another.
    pub open spec fn routes(&self, from: char, to: char) -> Seq<Seq<char>> {
        self.buttons[self.number_of(from)].routes_to(self.number_of(to))
    }

    /// The preferred route from one button to another.
    pub open spec fn best_route(&self, from: char, to: char) -> Seq<char> {
        self.buttons[self.number_of(from)].best_sequence_to_button@[self.number_of(to)]@
    }

    /// The invariant of a keypad: its grid is a rectangle, its buttons are
    /// those of the grid, no two of them carry the same label, and for every
    /// pair of them the catalog holds exactly the shortest routes, each once.
    pub open spec fn wf(&self) -> bool {
        let n = self.buttons.len();
        &&& well_shaped(self.grid_view())
        &&& lists_spots(self.grid_view(), self.spots())
        &&& forall|i: int, j: int|
            0 <= i < j < n ==> (#[trigger] self.buttons[i]).label != (
            #[trigger] self.buttons[j]).label
        &&& forall|i: int|
            0 <= i < n ==> (#[trigger] self.buttons[i]).sequences_to_button.len() == n
                && self.buttons[i].best_sequence_to_button.len() == n
        &&& forall|i: int, j: int|
            0 <= i < n && 0 <= j < n ==> #[trigger] catalogued(
                self.grid_view(),
                self.buttons@,
                i,
                j,
            )
    }

    /// A keypad from the rows of its layout, in which `#` marks the gap.
    /// The layout is refused where it is no rectangle, where two of its
    /// buttons carry the same label, and where some button cannot be reached
    /// from another.
    pub fn from_grid(grid: Vec<Vec<char>>) -> (result: Result<Keypad, KeypadError>)
        ensures
            match result {
                Ok(keypad) => keypad.wf() && keypad.grid == grid,
                Err(KeypadError::Malformed) => !well_shaped(views(grid@)),
                Err(KeypadError::DuplicateButton(label)) => well_shaped(views(grid@))
                    && duplicated(views(grid@), label),
                Err(KeypadError::Unreachable(from, to)) => {
                    &&& well_shaped(views(grid@))
                    &&& !has_duplicate(views(grid@))
                    &&& exists|a: Cell, b: Cell|
                        #![trigger holds_button(views(grid@), a), holds_button(views(grid@), b)]
                        {
                            &&& holds_button(views(grid@), a)
                            &&& holds_button(views(grid@), b)
                            &&& label_at(views(grid@), a) == from
                            &&& label_at(views(grid@), b) == to
                            &&& !joined(views(grid@), a, b)
                        }
                },
            },
            result is Ok <==> well_shaped(views(grid@)) && !has_duplicate(views(grid@))
                && is_connected(views(grid@)),
    {
        let ghost g = views(grid@);
        if !is_well_shaped(&grid) {
            return Err(KeypadError::Malformed);
        }
        let spots = collect_buttons(&grid);
        match find_duplicate(&spots) {
            Some((i, j)) => {
                proof {
                    let a = spots[i as int].cell();
                    let b = spots[j as int].cell();
                    assert(holds_button(g, a) && holds_button(g, b) && a != b);
                    assert(duplicated(g, spots[i as int].label));
                }
                return Err(KeypadError::DuplicateButton(spots[i].label));
            },
            None => {},
        }
        proof {
            if has_duplicate(g) {
                let label = choose|label: char| duplicated(g, label);
                let (a, b) = choose|a: Cell, b: Cell|
                    #![trigger holds_button(g, a), holds_button(g, b)]
                    {
                        &&& holds_button(g, a)
                        &&& holds_button(g, b)
                        &&& a != b
                        &&& label_at(g, a) == label
                        &&& label_at(g, b) == label
                    };
                let i = choose|i: int| 0 <= i < spots.len() && (#[trigger] spots[i]).cell() == a;
                let j = choose|j: int| 0 <= j < spots.len() && (#[trigger] spots[j]).cell() == b;
                if i < j {
                    assert(spots[i].label != spots[j].label);
                } else {
                    assert(spots[j].label != spots[i].label);
                }
            }
        }
        let mut table = match all_routes(&grid, &spots) {
            Err((i, j)) => {
                proof {
                    let a = spots[i as int].cell();
                    let b = spots[j as int].cell();
                    assert(holds_button(g, a) && holds_button(g, b));
                }
                return Err(KeypadError::Unreachable(spots[i].label, spots[j].label));
            },
            Ok(table) => table,
        };
        let ghost whole = table@;
        let mut buttons: Vec<SequenceCache> = Vec::new();
        let mut i: usize = 0;
        while i < spots.len()
            invariant
                i <= spots.len(),
                g == views(grid@),
                well_shaped(g),
                lists_spots(g, spots@),
                !has_duplicate(g),
                is_square(whole, spots.len() as int),
                forall|a: int, b: int|
                    0 <= a < spots.len() && 0 <= b < spots.len() ==> #[trigger] routed(
                        g,
                        spots@,
                        whole,
                        a,
                        b,
                    ),
                table@ == whole.subrange(i as int, whole.len() as int),
                buttons.len() == i,
                forall|a: int|
                    0 <= a < i ==> {
                        &&& (#[trigger] buttons[a]).label == spots[a].label
                        &&& buttons[a].x == spots[a].x
                        &&& buttons[a].y == spots[a].y
                        &&& buttons[a].sequences_to_button.len() == spots.len()
                        &&& buttons[a].best_sequence_to_button.len() == spots.len()
                    },
                forall|a: int, b: int|
                    0 <= a < i && 0 <= b < spots.len() ==> {
                        let routes = views((#[trigger] buttons[a].sequences_to_button[b])@);
                        &&& routes.len() > 0
                        &&& all_differ(routes)
                        &&& forall|r: Seq<char>|
                            routes.contains(r) <==> is_shortest(g, spots[a].cell(), spots[b].cell(), r)
                        &&& is_best(routes, buttons[a].best_sequence_to_button[b]@)
                    },
            decreases spots.len() - i,
        {
            assert(table@[0] == whole[i as int]);
            let routes = table.remove(0);
            assert(table@ == whole.subrange(i + 1, whole.len() as int));
            let ghost routes_view = routes@;
            proof {
                assert forall|b: int| 0 <= b < routes.len() implies (#[trigger] routes[b]).len() > 0
                    && (routes[b].len() == 1 || rankable(routes[b]@)) by {
                    assert(routed(g, spots@, whole, i as int, b));
                }
            }
            let cache = SequenceCache::new(spots[i].label, spots[i].x, spots[i].y, routes);
            proof {
                assert forall|b: int| 0 <= b < spots.len() implies {
                    let found = views((#[trigger] cache.sequences_to_button[b])@);
                    &&& found.len() > 0
                    &&& all_differ(found)
                    &&& forall|r: Seq<char>|
                        found.contains(r) <==> is_shortest(
                            g,
                            spots[i as int].cell(),
                            spots[b].cell(),
                            r,
                        )
                    &&& is_best(found, cache.best_sequence_to_button[b]@)
                } by {
                    assert(cache.sequences_to_button[b] == routes_view[b]);
                    assert(routed(g, spots@, whole, i as int, b));
                }
            }
            buttons.push(cache);
            i += 1;
        }
        let keypad = Keypad { grid, buttons };
        proof {
            let n = keypad.buttons.len();
            assert(keypad.spots() =~= spots@) by {
                assert forall|a: int| 0 <= a < n implies keypad.spots()[a] == spots[a] by {
                    assert(keypad.buttons[a].label == spots[a].label);
                }
            }
            assert forall|a: int, b: int| 0 <= a < n && 0 <= b < n implies #[trigger] catalogued(
                g,
                keypad.buttons@,
                a,
                b,
            ) by {
                let routes = views((keypad.buttons[a].sequences_to_button[b])@);
                assert(routes == keypad.buttons@[a].routes_to(b));
                assert(keypad.buttons@[a].cell() == spots[a].cell());
                assert(keypad.buttons@[b].cell() == spots[b].cell());
            }
            assert(is_connected(g)) by {
                assert forall|a: Cell, b: Cell|
                    #![trigger holds_button(g, a), holds_button(g, b)]
                    holds_button(g, a) && holds_button(g, b) implies joined(g, a, b) by {
                    let i = choose|i: int| 0 <= i < spots.len() && (#[trigger] spots[i]).cell() == a;
                    let j = choose|j: int| 0 <= j < spots.len() && (#[trigger] spots[j]).cell() == b;
                    let routes = views((keypad.buttons[i].sequences_to_button[j])@);
                    assert(routes.len() > 0);
                    assert(routes.contains(routes[0]));
                    assert(connects(g, a, b, routes[0]));
                }
            }
        }
        Ok(keypad)
    }
}

impl Keypad {
    /// A keypad from the text of its layout: one row on each line, `#` for
    /// the gap. What `from_grid` refuses is refused here.
    pub fn from_text(text: &str) -> (result: Result<Keypad, KeypadError>)
        ensures
            match result {
                Ok(keypad) => keypad.wf() && keypad.grid_view() == lines_of(text@),
                Err(KeypadError::Malformed) => !well_shaped(lines_of(text@)),
                Err(KeypadError::DuplicateButton(label)) => well_shaped(lines_of(text@))
                    && duplicated(lines_of(text@), label),
                Err(KeypadError::Unreachable(from, to)) => well_shaped(lines_of(text@))
                    && !has_duplicate(lines_of(text@)) && !is_connected(lines_of(text@)),
            },
            result is Ok <==> well_shaped(lines_of(text@)) && !has_duplicate(lines_of(text@))
                && is_connected(lines_of(text@)),
    {
        let grid = lines(text);
        Keypad::from_grid(grid)
    }

    /// The number of buttons.
    pub fn button_count(&self) -> (count: usize)
        ensures
            count == self.buttons.len(),
    {
        self.buttons.len()
    }

    /// The number of the button that carries `label`, if there is one.
    pub fn find_button(&self, label: char) -> (found: Option<usize>)
        requires
            self.wf(),
        ensures
            found is Some <==> self.has_button(label),
            found matches Some(i) ==> i == self.number_of(label) && i < self.buttons.len()
                && self.buttons[i as int].label == label,
    {
        let mut i: usize = 0;
        while i < self.buttons.len()
            invariant
                i <= self.buttons.len(),
                self.wf(),
                forall|j: int| 0 <= j < i ==> (#[trigger] self.buttons[j]).label != label,
            decreases self.buttons.len() - i,
        {
            if self.buttons[i].label == label {
                proof {
                    assert(self.has_button(label));
                    let n = self.number_of(label);
                    if n < i {
                        assert(self.buttons[n].label != self.buttons[i as int].label);
                    } else if i < n {
                        assert(self.buttons[i as int].label != self.buttons[n].label);
                    }
                }
                return Some(i);
            }
            i += 1;
        }
        None
    }

    /// Whether every symbol of `sequence` is the label of a button.
    pub fn has_all_buttons(&self, sequence: &Vec<char>) -> (all: bool)
        requires
            self.wf(),
        ensures
            all == self.has_buttons(sequence@),
    {
        let mut i: usize = 0;
        while i < sequence.len()
            invariant
                i <= sequence.len(),
                self.wf(),
                forall|j: int| 0 <= j < i ==> self.has_button(#[trigger] sequence[j]),
            decreases sequence.len() - i,
        {
            if self.find_button(sequence[i]).is_none() {
                return false;
            }
            i += 1;
        }
        true
    }
}

/// Every route of the catalog is a shortest route between its two buttons.
pub proof fn lemma_catalog_routes_are_shortest(keypad: &Keypad, from: char, to: char, route: Seq<char>)
    requires
        keypad.wf(),
        keypad.has_button(from),
        keypad.has_button(to),
        keypad.routes(from, to).contains(route),
    ensures
        is_shortest(keypad.grid_view(), keypad.cell_of(from), keypad.cell_of(to), route),
{
    let i = keypad.number_of(from);
    let j = keypad.number_of(to);
    assert(catalogued(keypad.grid_view(), keypad.buttons@, i, j));
}

/// The routes of the catalog between two buttons all have the same length.
pub proof fn lemma_catalog_routes_are_equally_long(
    keypad: &Keypad,
    from: char,
    to: char,
    one: Seq<char>,
    other: Seq<char>,
)
    requires
        keypad.wf(),
        keypad.has_button(from),
        keypad.has_button(to),
        keypad.routes(from, to).contains(one),
        keypad.routes(from, to).contains(other),
    ensures
        one.len() == other.len(),
{
    lemma_catalog_routes_are_shortest(keypad, from, to, one);
    lemma_catalog_routes_are_shortest(keypad, from, to, other);
}

/// No route stands twice in the catalog between two buttons.
pub proof fn lemma_catalog_routes_differ(keypad: &Keypad, from: char, to: char, m: int, n: int)
    requires
        keypad.wf(),
        keypad.has_button(from),
        keypad.has_button(to),
        0 <= m < n < keypad.routes(from, to).len(),
    ensures
        keypad.routes(from, to)[m] != keypad.routes(from, to)[n],
{
    let i = keypad.number_of(from);
    let j = keypad.number_of(to);
    assert(catalogued(keypad.grid_view(), keypad.buttons@, i, j));
}

/// The catalog misses no shortest route, and has at least one route for
/// every pair of buttons.
pub proof fn lemma_catalog_is_complete(keypad: &Keypad, from: char, to: char, route: Seq<char>)
    requires
        keypad.wf(),
        keypad.has_button(from),
        keypad.has_button(to),
    ensures
        keypad.routes(from, to).len() > 0,
        is_shortest(keypad.grid_view(), keypad.cell_of(from), keypad.cell_of(to), route)
            ==> keypad.routes(from, to).contains(route),
{
    let i = keypad.number_of(from);
    let j = keypad.number_of(to);
    assert(catalogued(keypad.grid_view(), keypad.buttons@, i, j));
}

} // verus!
