//! The two keypads of the puzzle: the numeric keypad of the door and the
//! directional keypad that drives an arm.
//!
//! Both are rectangles with the gap in a corner of the first column. On such
//! a keypad one of the two routes that turn once leads from any button to
//! any other.

use crate::keypad::catalog::{
    has_duplicate, is_connected, is_key, joined, label_at, well_shaped, Keypad,
};
use crate::keypad::layout::{
    connects, holds_button, is_move, lemma_walks_on, route_end, step, walks, Cell, GAP, HOME,
};
use crate::text::views;
use vstd::prelude::*;

verus! {

/// The cell `n` moves `m` away from `from`.
pub open spec fn shifted(from: Cell, m: char, n: int) -> Cell {
    if m == '<' {
        Cell { x: from.x - n, y: from.y }
    } else if m == '>' {
        Cell { x: from.x + n, y: from.y }
    } else if m == '^' {
        Cell { x: from.x, y: from.y - n }
    } else {
        Cell { x: from.x, y: from.y + n }
    }
}

/// The route of `n` moves `m`.
pub open spec fn straight(m: char, n: nat) -> Seq<char> {
    Seq::new(n, |i: int| m)
}

/// A straight route can be walked where every cell on it holds a button.
pub proof fn lemma_straight_walks(grid: Seq<Seq<char>>, from: Cell, m: char, n: nat)
    requires
        is_move(m),
        forall|i: int| 0 <= i <= n ==> holds_button(grid, #[trigger] shifted(from, m, i)),
    ensures
        walks(grid, from, straight(m, n)),
        route_end(from, straight(m, n)) == shifted(from, m, n as int),
    decreases n,
{
    if n == 0 {
        assert(shifted(from, m, 0) == from);
    } else {
        let shorter = (n - 1) as nat;
        assert forall|i: int| 0 <= i <= shorter implies holds_button(
            grid,
            #[trigger] shifted(from, m, i),
        ) by {}
        lemma_straight_walks(grid, from, m, shorter);
        assert(straight(m, n).drop_last() == straight(m, shorter));
        assert(straight(m, n).last() == m);
        assert(step(shifted(from, m, shorter as int), m) == shifted(from, m, n as int));
        assert(holds_button(grid, shifted(from, m, n as int)));
    }
}

/// Whether `gap` is the one cell of the grid that holds no button.
pub open spec fn single_gap(grid: Seq<Seq<char>>, gap: Cell) -> bool {
    forall|x: int, y: int|
        0 <= y < grid.len() && 0 <= x < grid[y].len() ==> (#[trigger] grid[y][x] == GAP <==> (x
            == gap.x && y == gap.y))
}

/// The move that leads from column or row `from` towards `to`.
pub open spec fn towards(from: int, to: int, back: char, forth: char) -> char {
    if to < from {
        back
    } else {
        forth
    }
}

/// The distance between two columns or rows.
pub open spec fn apart(from: int, to: int) -> nat {
    if to < from {
        (from - to) as nat
    } else {
        (to - from) as nat
    }
}

/// On a rectangle whose only gap lies in the first column, in the first or
/// the last row, a route leads from every button to every button: along the
/// row and then along the column, or the other way round.
pub proof fn lemma_corner_gap_is_connected(grid: Seq<Seq<char>>, gap: Cell)
    requires
        well_shaped(grid),
        single_gap(grid, gap),
        gap.x == 0,
        gap.y == 0 || gap.y == grid.len() - 1,
    ensures
        is_connected(grid),
{
    assert forall|a: Cell, b: Cell|
        #![trigger holds_button(grid, a), holds_button(grid, b)]
        holds_button(grid, a) && holds_button(grid, b) implies joined(grid, a, b) by {
        let across = towards(a.x, b.x, '<', '>');
        let along = towards(a.y, b.y, '^', 'v');
        let columns = apart(a.x, b.x);
        let rows = apart(a.y, b.y);
        assert(grid[a.y].len() == grid[0].len());
        assert(grid[b.y].len() == grid[0].len());
        if b.x == 0 && a.y == gap.y {
            let corner = Cell { x: a.x, y: b.y };
            assert forall|i: int| 0 <= i <= rows implies holds_button(
                grid,
                #[trigger] shifted(a, along, i),
            ) by {
                let c = shifted(a, along, i);
                assert(grid[c.y].len() == grid[0].len());
                assert(grid[c.y][c.x] == GAP <==> (c.x == gap.x && c.y == gap.y));
            }
            lemma_straight_walks(grid, a, along, rows);
            assert(shifted(a, along, rows as int) == corner);
            assert forall|i: int| 0 <= i <= columns implies holds_button(
                grid,
                #[trigger] shifted(corner, across, i),
            ) by {
                let c = shifted(corner, across, i);
                assert(grid[c.y][c.x] == GAP <==> (c.x == gap.x && c.y == gap.y));
            }
            lemma_straight_walks(grid, corner, across, columns);
            assert(shifted(corner, across, columns as int) == b);
            lemma_walks_on(grid, a, straight(along, rows), straight(across, columns));
            assert(connects(grid, a, b, straight(along, rows) + straight(across, columns)));
        } else {
            let corner = Cell { x: b.x, y: a.y };
            assert forall|i: int| 0 <= i <= columns implies holds_button(
                grid,
                #[trigger] shifted(a, across, i),
            ) by {
                let c = shifted(a, across, i);
                assert(grid[c.y][c.x] == GAP <==> (c.x == gap.x && c.y == gap.y));
            }
            lemma_straight_walks(grid, a, across, columns);
            assert(shifted(a, across, columns as int) == corner);
            assert forall|i: int| 0 <= i <= rows implies holds_button(
                grid,
                #[trigger] shifted(corner, along, i),
            ) by {
                let c = shifted(corner, along, i);
                assert(grid[c.y].len() == grid[0].len());
                assert(grid[c.y][c.x] == GAP <==> (c.x == gap.x && c.y == gap.y));
            }
            lemma_straight_walks(grid, corner, along, rows);
            assert(shifted(corner, along, rows as int) == b);
            lemma_walks_on(grid, a, straight(across, columns), straight(along, rows));
            assert(connects(grid, a, b, straight(across, columns) + straight(along, rows)));
        }
    }
}

/// A keypad has a button for the label of every cell of its grid that is
/// not the gap.
pub proof fn lemma_cell_has_button(keypad: &Keypad, cell: Cell)
    requires
        keypad.wf(),
        holds_button(keypad.grid_view(), cell),
    ensures
        keypad.has_button(label_at(keypad.grid_view(), cell)),
{
    let spots = keypad.spots();
    let i = choose|i: int| 0 <= i < spots.len() && (#[trigger] spots[i]).cell() == cell;
    assert(label_at(keypad.grid_view(), spots[i].cell()) == spots[i].label);
    assert(keypad.buttons[i].label == spots[i].label);
}

/// The rows of the numeric keypad.
pub open spec fn numeric_layout() -> Seq<Seq<char>> {
    seq![seq!['7', '8', '9'], seq!['4', '5', '6'], seq!['1', '2', '3'], seq!['#', '0', 'A']]
}

/// The rows of the directional keypad.
pub open spec fn directional_layout() -> Seq<Seq<char>> {
    seq![seq!['#', '^', 'A'], seq!['<', 'v', '>']]
}

/// Whether `c` is a button of the numeric keypad: a digit or `A`.
pub open spec fn is_numeric_button(c: char) -> bool {
    ('0' <= c <= '9') || c == HOME
}

/// A row of three characters.
fn row_of(a: char, b: char, c: char) -> (row: Vec<char>)
    ensures
        row@ == seq![a, b, c],
{
    let mut row: Vec<char> = Vec::new();
    row.push(a);
    row.push(b);
    row.push(c);
    row
}

proof fn lemma_numeric_layout()
    ensures
        well_shaped(numeric_layout()),
        !has_duplicate(numeric_layout()),
        is_connected(numeric_layout()),
        forall|c: char|
            is_numeric_button(c) ==> exists|cell: Cell|
                holds_button(numeric_layout(), cell) && #[trigger] label_at(numeric_layout(), cell)
                    == c,
{
    let g = numeric_layout();
    assert(g.len() == 4);
    assert(g[0] == seq!['7', '8', '9']);
    assert(g[1] == seq!['4', '5', '6']);
    assert(g[2] == seq!['1', '2', '3']);
    assert(g[3] == seq!['#', '0', 'A']);
    assert(well_shaped(g));
    let gap = Cell { x: 0, y: 3 };
    assert(single_gap(g, gap)) by {
        assert forall|x: int, y: int| 0 <= y < g.len() && 0 <= x < g[y].len() implies (
        #[trigger] g[y][x] == GAP <==> (x == gap.x && y == gap.y)) by {
            assert(y == 0 || y == 1 || y == 2 || y == 3);
            assert(x == 0 || x == 1 || x == 2);
        }
    }
    lemma_corner_gap_is_connected(g, gap);
    assert(!has_duplicate(g)) by {
        assert forall|a: Cell, b: Cell|
            holds_button(g, a) && holds_button(g, b) && label_at(g, a) == label_at(
                g,
                b,
            ) implies a == b by {
            assert(a.y == 0 || a.y == 1 || a.y == 2 || a.y == 3);
            assert(a.x == 0 || a.x == 1 || a.x == 2);
            assert(b.y == 0 || b.y == 1 || b.y == 2 || b.y == 3);
            assert(b.x == 0 || b.x == 1 || b.x == 2);
        }
    }
    assert forall|c: char| is_numeric_button(c) implies exists|cell: Cell|
        holds_button(g, cell) && #[trigger] label_at(g, cell) == c by {
        let cell = if c == '7' {
            Cell { x: 0, y: 0 }
        } else if c == '8' {
            Cell { x: 1, y: 0 }
        } else if c == '9' {
            Cell { x: 2, y: 0 }
        } else if c == '4' {
            Cell { x: 0, y: 1 }
        } else if c == '5' {
            Cell { x: 1, y: 1 }
        } else if c == '6' {
            Cell { x: 2, y: 1 }
        } else if c == '1' {
            Cell { x: 0, y: 2 }
        } else if c == '2' {
            Cell { x: 1, y: 2 }
        } else if c == '3' {
            Cell { x: 2, y: 2 }
        } else if c == '0' {
            Cell { x: 1, y: 3 }
        } else {
            Cell { x: 2, y: 3 }
        };
        assert(holds_button(g, cell) && label_at(g, cell) == c);
    }
}

proof fn lemma_directional_layout()
    ensures
        well_shaped(directional_layout()),
        !has_duplicate(directional_layout()),
        is_connected(directional_layout()),
        forall|c: char|
            is_key(c) ==> exists|cell: Cell|
                holds_button(directional_layout(), cell) && #[trigger] label_at(
                    directional_layout(),
                    cell,
                ) == c,
{
    let g = directional_layout();
    assert(g.len() == 2);
    assert(g[0] == seq!['#', '^', 'A']);
    assert(g[1] == seq!['<', 'v', '>']);
    assert(well_shaped(g));
    let gap = Cell { x: 0, y: 0 };
    assert(single_gap(g, gap)) by {
        assert forall|x: int, y: int| 0 <= y < g.len() && 0 <= x < g[y].len() implies (
        #[trigger] g[y][x] == GAP <==> (x == gap.x && y == gap.y)) by {
            assert(y == 0 || y == 1);
            assert(x == 0 || x == 1 || x == 2);
        }
    }
    lemma_corner_gap_is_connected(g, gap);
    assert(!has_duplicate(g)) by {
        assert forall|a: Cell, b: Cell|
            holds_button(g, a) && holds_button(g, b) && label_at(g, a) == label_at(
                g,
                b,
            ) implies a == b by {
            assert(a.y == 0 || a.y == 1);
            assert(a.x == 0 || a.x == 1 || a.x == 2);
            assert(b.y == 0 || b.y == 1);
            assert(b.x == 0 || b.x == 1 || b.x == 2);
        }
    }
    assert forall|c: char| is_key(c) implies exists|cell: Cell|
        holds_button(g, cell) && #[trigger] label_at(g, cell) == c by {
        let cell = if c == '^' {
            Cell { x: 1, y: 0 }
        } else if c == 'A' {
            Cell { x: 2, y: 0 }
        } else if c == '<' {
            Cell { x: 0, y: 1 }
        } else if c == 'v' {
            Cell { x: 1, y: 1 }
        } else {
            Cell { x: 2, y: 1 }
        };
        assert(holds_button(g, cell) && label_at(g, cell) == c);
    }
}

impl Keypad {
    /// The numeric keypad: three columns of digits, the gap under the `1`,
    /// beside it the `0` and the button `A`.
    pub fn numeric() -> (keypad: Keypad)
        ensures
            keypad.wf(),
            keypad.grid_view() == numeric_layout(),
            forall|c: char| is_numeric_button(c) ==> keypad.has_button(c),
    {
        let mut grid: Vec<Vec<char>> = Vec::new();
        grid.push(row_of('7', '8', '9'));
        grid.push(row_of('4', '5', '6'));
        grid.push(row_of('1', '2', '3'));
        grid.push(row_of('#', '0', 'A'));
        proof {
            assert(views(grid@) == numeric_layout());
            lemma_numeric_layout();
        }
        match Keypad::from_grid(grid) {
            Ok(keypad) => {
                proof {
                    assert forall|c: char| is_numeric_button(c) implies keypad.has_button(c) by {
                        let cell = choose|cell: Cell|
                            holds_button(numeric_layout(), cell) && #[trigger] label_at(
                                numeric_layout(),
                                cell,
                            ) == c;
                        lemma_cell_has_button(&keypad, cell);
                    }
                }
                keypad
            },
            Err(_) => vstd::pervasive::unreached(),
        }
    }

    /// The directional keypad: the gap, `^` and `A` above `<`, `v` and `>`.
    pub fn directional() -> (keypad: Keypad)
        ensures
            keypad.wf(),
            keypad.grid_view() == directional_layout(),
            keypad.drives_itself(),
    {
        let mut grid: Vec<Vec<char>> = Vec::new();
        grid.push(row_of('#', '^', 'A'));
        grid.push(row_of('<', 'v', '>'));
        proof {
            assert(views(grid@) == directional_layout());
            lemma_directional_layout();
        }
        match Keypad::from_grid(grid) {
            Ok(keypad) => {
                proof {
                    assert forall|c: char| is_key(c) implies keypad.has_button(c) by {
                        let cell = choose|cell: Cell|
                            holds_button(directional_layout(), cell) && #[trigger] label_at(
                                directional_layout(),
                                cell,
                            ) == c;
                        lemma_cell_has_button(&keypad, cell);
                    }
                    assert(is_key(HOME) && is_key('<') && is_key('>') && is_key('^') && is_key('v'));
                    assert(keypad.has_button(HOME));
                    assert(keypad.has_button('<'));
                    assert(keypad.has_button('>'));
                    assert(keypad.has_button('^'));
                    assert(keypad.has_button('v'));
                }
                keypad
            },
            Err(_) => vstd::pervasive::unreached(),
        }
    }
}

} // verus!
