//! Shortest ways through a grid of characters in which `#` is a wall: how
//! far each place is from a start, and one shortest route to an end.

use crate::keypad::layout::{
    connects, holds_button, is_move, is_shortest, lemma_reach_is_within, lemma_reach_last_move,
    lemma_reach_step, lemma_shortest_iff_tight, lemma_walk_gives_reach, lemma_walks_on,
    lemma_within_exact, lemma_within_grows, reach, reach_within, route_end, step, walks, Cell,
};
use crate::keypad::routes::{
    cell_at, cell_count, is_button_at, lemma_blank_grid, lemma_mark_in_grid, mark, same_shape,
    unseen_grid, unseen_total,
};
use crate::text::views;
use vstd::prelude::*;

verus! {

/// Whether the entry of a place in the table is right when all places
/// within `k` steps of the start have been found: a place that is reached
/// in so many steps holds its distance, and any other holds nothing.
pub open spec fn entry_holds(
    grid: Seq<Seq<char>>,
    start: Cell,
    table: Seq<Vec<Option<usize>>>,
    x: int,
    y: int,
    k: int,
) -> bool {
    match table[y][x] {
        Some(d) => d <= k && reach(grid, start, Cell { x, y }, d as nat) && !reach_within(
            grid,
            start,
            Cell { x, y },
            d - 1,
        ),
        None => !reach_within(grid, start, Cell { x, y }, k),
    }
}

/// Whether the table holds the distance of each place within `k` steps of
/// the start.
pub open spec fn charted(
    grid: Seq<Seq<char>>,
    start: Cell,
    table: Seq<Vec<Option<usize>>>,
    k: int,
) -> bool {
    &&& same_shape(grid, table)
    &&& forall|x: int, y: int|
        0 <= y < table.len() && 0 <= x < table[y].len() ==> #[trigger] entry_holds(
            grid,
            start,
            table,
            x,
            y,
            k,
        )
}

/// Whether the table holds the distance from the start of each place that
/// can be reached, and nothing for the others.
pub open spec fn measured(grid: Seq<Seq<char>>, start: Cell, table: Seq<Vec<Option<usize>>>) -> bool {
    &&& same_shape(grid, table)
    &&& forall|x: int, y: int|
        0 <= y < table.len() && 0 <= x < table[y].len() ==> match #[trigger] table[y][x] {
            Some(d) => reach(grid, start, Cell { x, y }, d as nat) && !reach_within(
                grid,
                start,
                Cell { x, y },
                d - 1,
            ),
            None => forall|n: int| !reach_within(grid, start, Cell { x, y }, n),
        }
}

/// Whether no place is exactly `k` + 1 steps from the start.
pub open spec fn ends_at(grid: Seq<Seq<char>>, start: Cell, k: int) -> bool {
    forall|c: Cell| #[trigger] reach_within(grid, start, c, k + 1) ==> reach_within(grid, start, c, k)
}

/// A place that is reached is a place of the grid.
pub proof fn lemma_reach_is_on_grid(grid: Seq<Seq<char>>, start: Cell, to: Cell, n: nat)
    requires
        reach(grid, start, to, n),
    ensures
        holds_button(grid, to),
{
}

/// Where no place is `k` + 1 steps away, none is further.
pub proof fn lemma_nothing_further(grid: Seq<Seq<char>>, start: Cell, to: Cell, k: int, n: int)
    requires
        k >= 0,
        ends_at(grid, start, k),
        reach_within(grid, start, to, n),
    ensures
        reach_within(grid, start, to, k),
    decreases n + 1,
{
    if n <= k {
        lemma_within_grows(grid, start, to, n, k);
    } else if reach_within(grid, start, to, n - 1) {
        lemma_nothing_further(grid, start, to, k, n - 1);
    } else {
        assert(reach(grid, start, to, n as nat));
        let (before, m) = lemma_reach_last_move(grid, start, to, n as nat);
        lemma_reach_is_within(grid, start, before, (n - 1) as nat, n - 1);
        lemma_nothing_further(grid, start, before, k, n - 1);
        let d = lemma_within_exact(grid, start, before, k);
        lemma_reach_step(grid, start, before, m, d);
        lemma_reach_is_within(grid, start, to, d + 1, k + 1);
        assert(reach_within(grid, start, to, k));
    }
}

/// The entry of a place in the table; nothing for a place beside it.
fn entry_at(table: &Vec<Vec<Option<usize>>>, x: usize, y: usize) -> (entry: Option<usize>)
    ensures
        entry == if y < table.len() && x < table[y as int].len() {
            table[y as int][x as int]
        } else {
            None
        },
{
    if y < table.len() && x < table[y].len() {
        table[y][x]
    } else {
        None
    }
}

/// Whether a place at the side of the place holds the distance `k`.
fn is_next_to(table: &Vec<Vec<Option<usize>>>, x: usize, y: usize, k: usize) -> (found: bool)
    requires
        y < table.len(),
        x < table[y as int].len(),
    ensures
        found == exists|m: char| #[trigger]
            is_move(m) && holds(table@, step(cell_at(x, y), m), k),
{
    let left = x > 0 && entry_at(table, x - 1, y) == Some(k);
    let right = entry_at(table, x + 1, y) == Some(k);
    let up = y > 0 && entry_at(table, x, y - 1) == Some(k);
    let down = y < usize::MAX && entry_at(table, x, y + 1) == Some(k);
    proof {
        let c = cell_at(x, y);
        assert(left == holds(table@, step(c, '<'), k));
        assert(right == holds(table@, step(c, '>'), k));
        assert(up == holds(table@, step(c, '^'), k));
        assert(down == holds(table@, step(c, 'v'), k));
        if left {
            assert(is_move('<'));
        }
        if right {
            assert(is_move('>'));
        }
        if up {
            assert(is_move('^'));
        }
        if down {
            assert(is_move('v'));
        }
    }
    left || right || up || down
}

/// Whether the place lies in the table and holds the distance `k`.
pub open spec fn holds(table: Seq<Vec<Option<usize>>>, c: Cell, k: usize) -> bool {
    0 <= c.y < table.len() && 0 <= c.x < table[c.y].len() && table[c.y][c.x] == Some(k)
}

/// The move that undoes a move.
pub open spec fn back(m: char) -> char {
    if m == '<' {
        '>'
    } else if m == '>' {
        '<'
    } else if m == '^' {
        'v'
    } else {
        '^'
    }
}

/// The number of steps within which the place (`u`, `v`) has been looked
/// for: one more than `k` where it comes before (`x`, `y`) in the order of
/// reading.
pub open spec fn steps_for(u: int, v: int, x: int, y: int, k: int) -> int {
    if v < y || (v == y && u < x) {
        k + 1
    } else {
        k
    }
}

/// Whether the places before (`x`, `y`) in the order of reading hold what
/// they hold when all places within `k` + 1 steps have been found, and the
/// others what they hold when those within `k` steps have been.
pub open spec fn spreading(
    grid: Seq<Seq<char>>,
    start: Cell,
    table: Seq<Vec<Option<usize>>>,
    x: int,
    y: int,
    k: int,
) -> bool {
    &&& same_shape(grid, table)
    &&& forall|u: int, v: int|
        0 <= v < table.len() && 0 <= u < table[v].len() ==> #[trigger] entry_holds(
            grid,
            start,
            table,
            u,
            v,
            steps_for(u, v, x, y, k),
        )
}

/// Finds the places that are `k` + 1 steps from the start, and says
/// whether there are any.
fn spread(grid: &Vec<Vec<char>>, table: &mut Vec<Vec<Option<usize>>>, k: usize, Ghost(start): Ghost<
    Cell,
>) -> (marked: bool)
    requires
        k < usize::MAX,
        charted(views(grid@), start, old(table)@, k as int),
    ensures
        charted(views(grid@), start, final(table)@, k + 1),
        marked ==> unseen_total(final(table)@) < unseen_total(old(table)@),
        !marked ==> ends_at(views(grid@), start, k as int) && final(table)@ == old(table)@,
{
    let ghost rows = views(grid@);
    let mut marked = false;
    let mut y: usize = 0;
    while y < table.len()
        invariant
            k < usize::MAX,
            rows == views(grid@),
            y <= table.len(),
            spreading(rows, start, table@, 0, y as int, k as int),
            marked ==> unseen_total(table@) < unseen_total(old(table)@),
            !marked ==> table@ == old(table)@,
            unseen_total(table@) <= unseen_total(old(table)@),
        decreases table.len() - y,
    {
        let mut x: usize = 0;
        while x < table[y].len()
            invariant
                k < usize::MAX,
                rows == views(grid@),
                y < table.len(),
                x <= table[y as int].len(),
                spreading(rows, start, table@, x as int, y as int, k as int),
                marked ==> unseen_total(table@) < unseen_total(old(table)@),
                !marked ==> table@ == old(table)@,
                unseen_total(table@) <= unseen_total(old(table)@),
            decreases table[y as int].len() - x,
        {
            let ghost c = cell_at(x, y);
            let ghost before = table@;
            assert(entry_holds(
                rows,
                start,
                before,
                x as int,
                y as int,
                steps_for(x as int, y as int, x as int, y as int, k as int),
            ));
            if table[y][x].is_none() {
                let near = is_next_to(table, x, y, k);
                if near && is_button_at(grid, x, y) {
                    proof {
                        let m = choose|m: char| #[trigger]
                            is_move(m) && holds(before, step(c, m), k);
                        let n = step(c, m);
                        assert(entry_holds(
                            rows,
                            start,
                            before,
                            n.x,
                            n.y,
                            steps_for(n.x, n.y, x as int, y as int, k as int),
                        ));
                        assert(reach(rows, start, n, k as nat));
                        assert(is_move(back(m)) && step(n, back(m)) == c);
                        lemma_reach_step(rows, start, n, back(m), k as nat);
                    }
                    mark(table, x, y, k + 1);
                    marked = true;
                    proof {
                        lemma_mark_in_grid(before, table@, x as int, y as int, (k + 1) as usize);
                    }
                } else {
                    proof {
                        if reach_within(rows, start, c, k + 1) {
                            assert(reach(rows, start, c, (k + 1) as nat));
                            let (n, m) = lemma_reach_last_move(rows, start, c, (k + 1) as nat);
                            lemma_reach_is_on_grid(rows, start, n, k as nat);
                            lemma_reach_is_within(rows, start, n, k as nat, k as int);
                            lemma_within_grows(rows, start, n, k as int, k + 1);
                            assert(entry_holds(
                                rows,
                                start,
                                before,
                                n.x,
                                n.y,
                                steps_for(n.x, n.y, x as int, y as int, k as int),
                            ));
                            let d = before[n.y][n.x]->Some_0;
                            if d < k {
                                lemma_reach_step(rows, start, n, m, d as nat);
                                lemma_reach_is_within(rows, start, c, (d + 1) as nat, k as int);
                            }
                            assert(holds(before, n, k));
                            assert(is_move(back(m)) && step(c, back(m)) == n);
                            assert(false);
                        }
                    }
                }
            }
            proof {
                assert(entry_holds(rows, start, table@, x as int, y as int, k + 1));
                assert forall|u: int, v: int|
                    0 <= v < table.len() && 0 <= u < table[v].len() implies #[trigger] entry_holds(
                    rows,
                    start,
                    table@,
                    u,
                    v,
                    steps_for(u, v, x + 1, y as int, k as int),
                ) by {
                    assert(entry_holds(
                        rows,
                        start,
                        before,
                        u,
                        v,
                        steps_for(u, v, x as int, y as int, k as int),
                    ));
                    if v != y {
                        assert(table@[v] == before[v]);
                    } else if u != x {
                        assert(table@[v][u] == before[v][u]);
                    }
                }
            }
            x += 1;
        }
        proof {
            assert forall|u: int, v: int|
                0 <= v < table.len() && 0 <= u < table[v].len() implies #[trigger] entry_holds(
                rows,
                start,
                table@,
                u,
                v,
                steps_for(u, v, 0, y + 1, k as int),
            ) by {
                assert(entry_holds(
                    rows,
                    start,
                    table@,
                    u,
                    v,
                    steps_for(u, v, x as int, y as int, k as int),
                ));
            }
        }
        y += 1;
    }
    proof {
        assert forall|u: int, v: int|
            0 <= v < table.len() && 0 <= u < table[v].len() implies #[trigger] entry_holds(
            rows,
            start,
            table@,
            u,
            v,
            k + 1,
        ) by {
            assert(entry_holds(
                rows,
                start,
                table@,
                u,
                v,
                steps_for(u, v, 0, y as int, k as int),
            ));
        }
        if !marked {
            assert forall|c: Cell| #[trigger] reach_within(rows, start, c, k + 1) implies reach_within(
                rows,
                start,
                c,
                k as int,
            ) by {
                if !reach_within(rows, start, c, k as int) {
                    assert(reach(rows, start, c, (k + 1) as nat));
                    lemma_reach_is_on_grid(rows, start, c, (k + 1) as nat);
                    assert(entry_holds(rows, start, table@, c.x, c.y, k + 1));
                    assert(entry_holds(rows, start, old(table)@, c.x, c.y, k as int));
                    let d = table@[c.y][c.x]->Some_0;
                    lemma_reach_is_within(rows, start, c, d as nat, k as int);

                }
            }
        }
    }
    marked
}

/// How far each place of the grid is from the start, in steps to a place
/// at the side that is no wall; nothing for a place that cannot be reached.
pub fn distances(grid: &Vec<Vec<char>>, start_x: usize, start_y: usize) -> (table: Vec<
    Vec<Option<usize>>,
>)
    requires
        cell_count(views(grid@)) < usize::MAX,
    ensures
        measured(views(grid@), cell_at(start_x, start_y), table@),
{
    let ghost rows = views(grid@);
    let ghost start = cell_at(start_x, start_y);
    let mut table = unseen_grid(grid);
    proof {
        lemma_blank_grid(rows, table@);
    }
    if !is_button_at(grid, start_x, start_y) {
        proof {
            assert forall|x: int, y: int| 0 <= y < table.len() && 0 <= x < table[y].len() implies (
            match #[trigger] table[y][x] {
                Some(d) => reach(rows, start, Cell { x, y }, d as nat) && !reach_within(
                    rows,
                    start,
                    Cell { x, y },
                    d - 1,
                ),
                None => forall|n: int| !reach_within(rows, start, Cell { x, y }, n),
            }) by {
                assert(table[y][x] is None);
                assert forall|n: int| !reach_within(rows, start, Cell { x, y }, n) by {
                    if reach_within(rows, start, Cell { x, y }, n) {
                        let d = lemma_within_exact(rows, start, Cell { x, y }, n);
                        lemma_no_way_from_a_wall(rows, start, Cell { x, y }, d);
                    }
                }
            }
        }
        return table;
    }
    let ghost blank = table@;
    mark(&mut table, start_x, start_y, 0);
    proof {
        lemma_mark_in_grid(blank, table@, start_x as int, start_y as int, 0);
        assert forall|x: int, y: int|
            0 <= y < table.len() && 0 <= x < table[y].len() implies #[trigger] entry_holds(
            rows,
            start,
            table@,
            x,
            y,
            0,
        ) by {
            let c = Cell { x, y };
            assert(!reach_within(rows, start, c, -1));
            if y != start_y {
                assert(table@[y] == blank[y]);
                assert(blank[y][x] is None);
                assert(!reach(rows, start, c, 0));
            } else if x != start_x {
                assert(table@[y][x] == blank[y][x]);
                assert(blank[y][x] is None);
                assert(!reach(rows, start, c, 0));
            } else {
                assert(c == start);
                assert(table@[y][x] == Some(0usize));
                assert(reach(rows, start, c, 0));
            }
        }
    }
    let mut k: usize = 0;
    loop
        invariant
            rows == views(grid@),
            start == cell_at(start_x, start_y),
            cell_count(rows) < usize::MAX,
            charted(rows, start, table@, k as int),
            k + unseen_total(table@) < cell_count(rows),
        ensures
            charted(rows, start, table@, k as int),
            ends_at(rows, start, k as int),
        decreases unseen_total(table@),
    {
        let ghost before = table@;
        if !spread(grid, &mut table, k, Ghost(start)) {
            proof {
                assert forall|x: int, y: int|
                    0 <= y < table.len() && 0 <= x < table[y].len() implies #[trigger] entry_holds(
                    rows,
                    start,
                    table@,
                    x,
                    y,
                    k as int,
                ) by {
                    assert(entry_holds(rows, start, before, x, y, k as int));
                }
            }
            break ;
        }
        k += 1;
    }
    proof {
        assert forall|x: int, y: int| 0 <= y < table.len() && 0 <= x < table[y].len() implies (
        match #[trigger] table[y][x] {
            Some(d) => reach(rows, start, Cell { x, y }, d as nat) && !reach_within(
                rows,
                start,
                Cell { x, y },
                d - 1,
            ),
            None => forall|n: int| !reach_within(rows, start, Cell { x, y }, n),
        }) by {
            assert(entry_holds(rows, start, table@, x, y, k as int));
            if table[y][x] is None {
                assert forall|n: int| !reach_within(rows, start, Cell { x, y }, n) by {
                    if reach_within(rows, start, Cell { x, y }, n) {
                        lemma_nothing_further(rows, start, Cell { x, y }, k as int, n);
                    }
                }
            }
        }
    }
    table
}

/// From a wall, or from a place beside the grid, no place is reached.
proof fn lemma_no_way_from_a_wall(grid: Seq<Seq<char>>, start: Cell, to: Cell, n: nat)
    requires
        !holds_button(grid, start),
    ensures
        !reach(grid, start, to, n),
    decreases n,
{
    if n > 0 {
        lemma_no_way_from_a_wall(grid, start, Cell { x: to.x + 1, y: to.y }, (n - 1) as nat);
        lemma_no_way_from_a_wall(grid, start, Cell { x: to.x - 1, y: to.y }, (n - 1) as nat);
        lemma_no_way_from_a_wall(grid, start, Cell { x: to.x, y: to.y + 1 }, (n - 1) as nat);
        lemma_no_way_from_a_wall(grid, start, Cell { x: to.x, y: to.y - 1 }, (n - 1) as nat);
    }
}

/// A place that is `d` steps from the start, and no fewer, has a place at
/// its side that is one step nearer.
proof fn lemma_nearer_place(
    grid: Seq<Seq<char>>,
    start: Cell,
    table: Seq<Vec<Option<usize>>>,
    c: Cell,
    d: usize,
) -> (m: char)
    requires
        measured(grid, start, table),
        holds(table, c, d),
        d > 0,
    ensures
        is_move(m),
        holds(table, step(c, back(m)), (d - 1) as usize),
        step(step(c, back(m)), m) == c,
{
    assert(table[c.y][c.x] == Some(d));
    let (n, m) = lemma_reach_last_move(grid, start, c, d as nat);
    lemma_reach_is_on_grid(grid, start, n, (d - 1) as nat);
    assert(table[n.y][n.x] is Some) by {
        if table[n.y][n.x] is None {
            lemma_reach_is_within(grid, start, n, (d - 1) as nat, d - 1);
        }
    }
    let near = table[n.y][n.x]->Some_0;
    if near < d - 1 {
        lemma_reach_step(grid, start, n, m, near as nat);
        lemma_reach_is_within(grid, start, c, (near + 1) as nat, d - 1);
    }
    if near > d - 1 {
        lemma_reach_is_within(grid, start, n, (d - 1) as nat, near - 1);
    }
    assert(step(c, back(m)) == n);
    m
}

/// One shortest route from the start to the end, as the moves `<`, `>`,
/// `^` and `v`; nothing where there is no way.
pub fn find_route(
    grid: &Vec<Vec<char>>,
    start_x: usize,
    start_y: usize,
    end_x: usize,
    end_y: usize,
) -> (found: Option<Vec<char>>)
    requires
        cell_count(views(grid@)) < usize::MAX,
    ensures
        match found {
            Some(route) => is_shortest(
                views(grid@),
                cell_at(start_x, start_y),
                cell_at(end_x, end_y),
                route@,
            ),
            None => forall|route: Seq<char>|
                !connects(views(grid@), cell_at(start_x, start_y), cell_at(end_x, end_y), route),
        },
{
    let ghost rows = views(grid@);
    let ghost start = cell_at(start_x, start_y);
    let ghost end = cell_at(end_x, end_y);
    let table = distances(grid, start_x, start_y);
    let total = match entry_at(&table, end_x, end_y) {
        None => {
            proof {
                assert forall|route: Seq<char>| !connects(rows, start, end, route) by {
                    if connects(rows, start, end, route) {
                        lemma_walk_gives_reach(rows, start, end, route);
                        lemma_reach_is_on_grid(rows, start, end, route.len());
                        lemma_reach_is_within(rows, start, end, route.len(), route.len() as int);
                        assert(table[end.y][end.x] is None);
                    }
                }
            }
            return None;
        },
        Some(total) => total,
    };
    let mut route: Vec<char> = Vec::new();
    let mut x = end_x;
    let mut y = end_y;
    let mut d = total;
    proof {
        assert(table[end.y][end.x] == Some(total));
        assert(reach(rows, start, end, total as nat));
        lemma_reach_is_on_grid(rows, start, end, total as nat);
        assert(walks(rows, end, route@));
    }
    while d > 0
        invariant
            rows == views(grid@),
            start == cell_at(start_x, start_y),
            end == cell_at(end_x, end_y),
            measured(rows, start, table@),
            holds(table@, cell_at(x, y), d),
            connects(rows, cell_at(x, y), end, route@),
            route.len() + d == total,
        decreases d,
    {
        let ghost c = cell_at(x, y);
        let ghost tail = route@;
        proof {
            let m = lemma_nearer_place(rows, start, table@, c, d);
        }
        let near = d - 1;
        let (m, nx, ny) = if x > 0 && entry_at(&table, x - 1, y) == Some(near) {
            ('>', x - 1, y)
        } else if entry_at(&table, x + 1, y) == Some(near) {
            ('<', x + 1, y)
        } else if y > 0 && entry_at(&table, x, y - 1) == Some(near) {
            ('v', x, y - 1)
        } else {
            proof {
                let m = lemma_nearer_place(rows, start, table@, c, d);
                assert(holds(table@, step(c, 'v'), near));
            }
            ('^', x, y + 1)
        };
        route.insert(0, m);
        proof {
            let n = cell_at(nx, ny);
            assert(step(n, m) == c);
            assert(holds(table@, n, near));
            assert(reach(rows, start, n, near as nat));
            lemma_reach_is_on_grid(rows, start, n, near as nat);
            let first = seq![m];
            assert(first.drop_last() =~= Seq::<char>::empty());
            assert(walks(rows, n, first.drop_last()));
            assert(route_end(n, first.drop_last()) == n);
            assert(route_end(n, first) == c);
            assert(walks(rows, n, first)) by {
                assert(is_move(first.last()));
                assert(holds_button(rows, c)) by {
                    assert(reach(rows, start, c, d as nat));
                    lemma_reach_is_on_grid(rows, start, c, d as nat);
                }
            }
            lemma_walks_on(rows, n, first, tail);
            assert(route@ =~= first + tail);
        }
        x = nx;
        y = ny;
        d = near;
    }
    proof {
        assert(reach(rows, start, cell_at(x, y), 0));
        assert(cell_at(x, y) == start);
        lemma_shortest_iff_tight(rows, start, end, route@);
    }
    Some(route)
}

/// The places that a route passes, from its start to its end.
pub open spec fn places(start: Cell, route: Seq<char>) -> Seq<Cell> {
    Seq::new(route.len() + 1, |i: int| route_end(start, route.take(i)))
}

/// The places that the pairs of numbers stand for.
pub open spec fn cells_of(pairs: Seq<(usize, usize)>) -> Seq<Cell> {
    Seq::new(pairs.len(), |i: int| cell_at(pairs[i].0, pairs[i].1))
}

/// The first moves of a route through the grid are a route through the
/// grid.
pub proof fn lemma_walks_so_far(grid: Seq<Seq<char>>, start: Cell, route: Seq<char>, n: int)
    requires
        walks(grid, start, route),
        0 <= n <= route.len(),
    ensures
        walks(grid, start, route.take(n)),
    decreases route.len(),
{
    if n == route.len() {
        assert(route.take(n) == route);
    } else {
        assert(route.drop_last().take(n) == route.take(n));
        lemma_walks_so_far(grid, start, route.drop_last(), n);
    }
}

/// How many places a grid has whose rows are no longer than `wide`.
pub proof fn lemma_cell_count_bound(grid: Seq<Seq<char>>, wide: nat)
    requires
        forall|y: int| 0 <= y < grid.len() ==> (#[trigger] grid[y]).len() <= wide,
    ensures
        cell_count(grid) <= grid.len() * wide,
    decreases grid.len(),
{
    if grid.len() > 0 {
        assert forall|y: int| 0 <= y < grid.drop_last().len() implies (#[trigger] grid.drop_last()[y]).len()
            <= wide by {
            assert(grid.drop_last()[y] == grid[y]);
        }
        lemma_cell_count_bound(grid.drop_last(), wide);
        assert((grid.len() - 1) * wide + wide == grid.len() * wide) by (nonlinear_arith);
    }
}

/// The places that a route through the grid passes.
pub fn places_of(grid: &Vec<Vec<char>>, start_x: usize, start_y: usize, route: &Vec<char>) -> (passed:
    Vec<(usize, usize)>)
    requires
        walks(views(grid@), cell_at(start_x, start_y), route@),
    ensures
        cells_of(passed@) == places(cell_at(start_x, start_y), route@),
        forall|i: int|
            0 <= i < passed.len() ==> holds_button(
                views(grid@),
                cell_at((#[trigger] passed[i]).0, passed[i].1),
            ),
{
    let ghost rows = views(grid@);
    let ghost start = cell_at(start_x, start_y);
    let mut passed: Vec<(usize, usize)> = Vec::new();
    let mut x = start_x;
    let mut y = start_y;
    passed.push((x, y));
    proof {
        assert(route@.take(0) =~= Seq::<char>::empty());
        lemma_walks_so_far(rows, start, route@, 0);
    }
    let mut i: usize = 0;
    while i < route.len()
        invariant
            i <= route.len(),
            rows == views(grid@),
            start == cell_at(start_x, start_y),
            walks(rows, start, route@),
            passed.len() == i + 1,
            cell_at(x, y) == route_end(start, route@.take(i as int)),
            forall|j: int|
                0 <= j <= i ==> cell_at((#[trigger] passed[j]).0, passed[j].1) == route_end(
                    start,
                    route@.take(j),
                ) && holds_button(rows, cell_at(passed[j].0, passed[j].1)),
        decreases route.len() - i,
    {
        let m = route[i];
        proof {
            lemma_walks_so_far(rows, start, route@, i + 1);
            assert(route@.take(i + 1).drop_last() =~= route@.take(i as int));
            assert(route@.take(i + 1).last() == m);
            let next = route_end(start, route@.take(i + 1));
            assert(holds_button(rows, next));
            assert(next == step(cell_at(x, y), m));
            assert(is_move(m));
            assert(rows[next.y] == grid[next.y]@);
            assert(next.y < grid.len() <= usize::MAX);
            assert(next.x < grid[next.y].len() <= usize::MAX);
        }
        if m == '<' {
            x = x - 1;
        } else if m == '>' {
            x = x + 1;
        } else if m == '^' {
            y = y - 1;
        } else {
            y = y + 1;
        }
        passed.push((x, y));
        i += 1;
    }
    assert(cells_of(passed@) =~= places(start, route@));
    passed
}

} // verus!
