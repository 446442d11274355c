//! A maze through which a reindeer runs: a step forward costs one point,
//! and a turn to the left or to the right with the step after it a
//! thousand and one. The lowest score from the start to the end, and the
//! tiles on the ways with that score.

use crate::text::{lines, lines_of, views};
use vstd::prelude::*;

verus! {

/// A direction in which the reindeer looks.
pub type Direction = u8;

pub const NORTH: Direction = 0;

pub const EAST: Direction = 1;

pub const SOUTH: Direction = 2;

pub const WEST: Direction = 3;

/// How many rows and columns the maze has.
pub const SIDE: usize = 256;

/// How many places the reindeer can be in, counting the direction in which
/// it looks.
pub const STATES: usize = 262144;

/// A tile of the maze.
#[derive(Clone, Copy, Debug, PartialEq, Eq)]
pub struct Point {
    pub x: u8,
    pub y: u8,
}

/// A maze: for each tile, row by row, whether it is a wall.
#[derive(Debug)]
pub struct Maze {
    pub walls: Vec<bool>,
}

/// Where the reindeer is and in which direction it looks.
pub ghost struct State {
    pub x: int,
    pub y: int,
    pub d: int,
}

/// Whether the state is one of a tile of the maze and a direction.
pub open spec fn valid(s: State) -> bool {
    0 <= s.x < 256 && 0 <= s.y < 256 && 0 <= s.d < 4
}

/// The place of a state in a table of all states.
pub open spec fn index_of(s: State) -> int {
    s.y * 1024 + s.x * 4 + s.d
}

/// The state at a place in a table of all states.
pub open spec fn state_at(i: int) -> State {
    State { x: (i / 4) % 256, y: i / 1024, d: i % 4 }
}

/// The state one step from a state in a direction.
pub open spec fn next(s: State, d: int) -> State {
    if d == 0 {
        State { x: s.x, y: s.y - 1, d }
    } else if d == 1 {
        State { x: s.x + 1, y: s.y, d }
    } else if d == 2 {
        State { x: s.x, y: s.y + 1, d }
    } else {
        State { x: s.x - 1, y: s.y, d }
    }
}

/// The state from which a step in the direction of the state leads to it,
/// looking in the direction `d`.
pub open spec fn before(t: State, d: int) -> State {
    if t.d == 0 {
        State { x: t.x, y: t.y + 1, d }
    } else if t.d == 1 {
        State { x: t.x - 1, y: t.y, d }
    } else if t.d == 2 {
        State { x: t.x, y: t.y - 1, d }
    } else {
        State { x: t.x + 1, y: t.y, d }
    }
}

/// What a step from a state to the next costs: one point straight on, and
/// a thousand and one after a turn.
pub open spec fn weight(s: State, t: State) -> nat {
    if t.d == s.d {
        1
    } else {
        1001
    }
}

impl Maze {
    /// Whether the maze says of every tile whether it is a wall.
    pub open spec fn wf(&self) -> bool {
        self.walls.len() == 65536
    }

    /// Whether the tile is no wall.
    pub open spec fn free(&self, x: int, y: int) -> bool {
        0 <= x < 256 && 0 <= y < 256 && !self.walls[y * 256 + x]
    }

    /// Whether the reindeer gets from the state `s` to the state `t` in one
    /// step: straight on, or after a turn to the left or to the right, to a
    /// tile that is no wall.
    pub open spec fn is_edge(&self, s: State, t: State) -> bool {
        &&& 0 <= t.d < 4
        &&& 0 <= s.d < 4
        &&& t == next(s, t.d)
        &&& t.d != (s.d + 2) % 4
        &&& self.free(t.x, t.y)
    }

    /// Whether the states are a run of the reindeer from the state `from`.
    pub open spec fn runs(&self, from: State, path: Seq<State>) -> bool
        decreases path.len(),
    {
        path.len() == 0 || (self.runs(from, path.drop_last()) && self.is_edge(
            ends(from, path.drop_last()),
            path.last(),
        ))
    }

    /// Whether a run leads from the state `from` to the tile `end`.
    pub open spec fn arrives(&self, from: State, end: Point) -> bool {
        exists|run: Seq<State>|
            #![trigger self.runs(from, run)]
            self.runs(from, run) && is_at(end)(ends(from, run))
    }

    /// Whether `score` is the lowest score of a run from `from` to a state
    /// that `is_goal` holds of.
    #[verifier::opaque]
    pub open spec fn is_lowest(&self, from: State, is_goal: spec_fn(State) -> bool, score: nat) -> bool {
        &&& exists|path: Seq<State>|
            #![trigger self.runs(from, path)]
            self.runs(from, path) && is_goal(ends(from, path)) && cost(from, path) == score
        &&& forall|path: Seq<State>|
            #![trigger self.runs(from, path)]
            self.runs(from, path) && is_goal(ends(from, path)) ==> cost(from, path) >= score
    }
}

/// The state in which a run ends.
pub open spec fn ends(from: State, path: Seq<State>) -> State {
    if path.len() == 0 {
        from
    } else {
        path.last()
    }
}

/// The score of a run.
pub open spec fn cost(from: State, path: Seq<State>) -> nat
    decreases path.len(),
{
    if path.len() == 0 {
        0
    } else {
        cost(from, path.drop_last()) + weight(ends(from, path.drop_last()), path.last())
    }
}

/// A run after a run is a run, and its score the sum of theirs.
pub proof fn lemma_runs_on(maze: &Maze, from: State, first: Seq<State>, second: Seq<State>)
    requires
        maze.runs(from, first),
        maze.runs(ends(from, first), second),
    ensures
        maze.runs(from, first + second),
        ends(from, first + second) == ends(ends(from, first), second),
        cost(from, first + second) == cost(from, first) + cost(ends(from, first), second),
    decreases second.len(),
{
    if second.len() == 0 {
        assert(first + second =~= first);
    } else {
        let shorter = second.drop_last();
        lemma_runs_on(maze, from, first, shorter);
        assert((first + second).drop_last() =~= first + shorter);
        assert((first + second).last() == second.last());
    }
}

/// The first steps of a run are a run, and the others a run from where
/// they end.
pub proof fn lemma_runs_in_parts(maze: &Maze, from: State, path: Seq<State>, n: int)
    requires
        maze.runs(from, path),
        0 <= n <= path.len(),
    ensures
        maze.runs(from, path.take(n)),
        maze.runs(ends(from, path.take(n)), path.skip(n)),
        cost(from, path) == cost(from, path.take(n)) + cost(ends(from, path.take(n)), path.skip(n)),
        ends(ends(from, path.take(n)), path.skip(n)) == ends(from, path),
    decreases path.len(),
{
    if n == path.len() {
        assert(path.take(n) =~= path);
        assert(path.skip(n) =~= Seq::<State>::empty());
    } else {
        let shorter = path.drop_last();
        lemma_runs_in_parts(maze, from, shorter, n);
        assert(shorter.take(n) =~= path.take(n));
        assert(path.skip(n).drop_last() =~= shorter.skip(n));
        assert(path.skip(n).last() == path.last());
        if shorter.skip(n).len() == 0 {
            assert(shorter =~= path.take(n));
        } else {
            assert(shorter.skip(n).last() == shorter.last());
        }
    }
}

/// The direction after so many quarter turns to the right.
pub fn rotate(direction: &Direction, steps: u8) -> (turned: Direction)
    requires
        *direction + steps <= 255,
    ensures
        turned == (*direction + steps) % 4,
{
    (*direction + steps) % 4
}

impl Point {
    pub fn new(x: u8, y: u8) -> (p: Point)
        ensures
            p.x == x && p.y == y,
    {
        Point { x, y }
    }

    /// The tile one step in a direction.
    pub fn apply(&self, direction: Direction) -> (p: Point)
        requires
            direction <= WEST,
            direction == NORTH ==> self.y > 0,
            direction == EAST ==> self.x < 255,
            direction == SOUTH ==> self.y < 255,
            direction == WEST ==> self.x > 0,
        ensures
            (State { x: p.x as int, y: p.y as int, d: direction as int }) == next(
                State { x: self.x as int, y: self.y as int, d: 0 },
                direction as int,
            ),
    {
        if direction == NORTH {
            Point { x: self.x, y: self.y - 1 }
        } else if direction == EAST {
            Point { x: self.x + 1, y: self.y }
        } else if direction == SOUTH {
            Point { x: self.x, y: self.y + 1 }
        } else {
            Point { x: self.x - 1, y: self.y }
        }
    }
}

/// Whether every state of the table that holds a score holds the score of
/// the run that is known for it, from the state `from` to that state.
pub open spec fn sound(
    maze: &Maze,
    from: State,
    table: Seq<Option<usize>>,
    known: Map<int, Seq<State>>,
) -> bool {
    &&& table.len() == STATES
    &&& forall|i: int|
        0 <= i < STATES ==> (#[trigger] table[i] matches Some(c) ==> maze.runs(from, known[i])
            && ends(from, known[i]) == state_at(i) && cost(from, known[i]) == c)
}

/// Whether the entry holds a score, and no more than `most`.
pub open spec fn no_more(entry: Option<usize>, most: int) -> bool {
    entry matches Some(c) && c <= most
}

/// Whether no step from a state with a score leads to a state without a
/// score, or with a score that the step would lower.
pub open spec fn settled(maze: &Maze, table: Seq<Option<usize>>, upto: int) -> bool {
    forall|i: int, d: int|
        #![trigger table[i], next(state_at(i), d)]
        0 <= i < upto && 0 <= d < 4 && table[i] is Some && maze.is_edge(
            state_at(i),
            next(state_at(i), d),
        ) ==> no_more(
            table[index_of(next(state_at(i), d))],
            table[i]->Some_0 + weight(state_at(i), next(state_at(i), d)),
        )
}

/// In a settled table that holds nought for the start, the end of a run
/// holds no more than the score of the run.
pub proof fn lemma_settled_is_lowest(maze: &Maze, from: State, table: Seq<Option<usize>>, path: Seq<State>)
    requires
        maze.wf(),
        valid(from),
        table.len() == STATES,
        settled(maze, table, STATES as int),
        table[index_of(from)] == Some(0usize),
        maze.runs(from, path),
    ensures
        valid(ends(from, path)),
        table[index_of(ends(from, path))] matches Some(c) && c <= cost(from, path),
    decreases path.len(),
{
    if path.len() > 0 {
        let shorter = path.drop_last();
        lemma_settled_is_lowest(maze, from, table, shorter);
        let s = ends(from, shorter);
        let t = path.last();
        let i = index_of(s);
        assert(state_at(i) == s);
        assert(t == next(s, t.d));
        assert(table[i] is Some);
        assert(maze.is_edge(state_at(i), next(state_at(i), t.d)));
    }
}

/// What a look through the table has done.
#[derive(Clone, Copy, Debug, PartialEq, Eq)]
pub enum Outcome {
    /// A score was found or lowered.
    Changed,
    /// No step lowers a score.
    Settled,
}

impl Outcome {
    /// Whether a score was found or lowered.
    pub fn is_changed(&self) -> (changed: bool)
        ensures
            changed == (*self == Outcome::Changed),
    {
        match self {
            Outcome::Changed => true,
            _ => false,
        }
    }
}

/// The place in a table of all states of the state one step in the
/// direction `e` from the tile (`x`, `y`); nothing where the step leaves
/// the maze.
fn step_to(x: usize, y: usize, e: u8) -> (place: Option<usize>)
    requires
        x < 256 && y < 256 && e < 4,
    ensures
        place is Some <==> valid(next(State { x: x as int, y: y as int, d: 0 }, e as int)),
        place matches Some(j) ==> j == index_of(
            next(State { x: x as int, y: y as int, d: 0 }, e as int),
        ) && j < STATES,
{
    if e == 0 {
        if y == 0 {
            None
        } else {
            Some((y - 1) * 1024 + x * 4)
        }
    } else if e == 1 {
        if x == 255 {
            None
        } else {
            Some(y * 1024 + (x + 1) * 4 + 1)
        }
    } else if e == 2 {
        if y == 255 {
            None
        } else {
            Some((y + 1) * 1024 + x * 4 + 2)
        }
    } else {
        if x == 0 {
            None
        } else {
            Some(y * 1024 + (x - 1) * 4 + 3)
        }
    }
}

/// The place in a table of all states of the state that looks in the
/// direction `d` on the tile from which a step in the direction `e` leads
/// to the tile (`x`, `y`); nothing where that tile lies beside the maze.
fn step_from(x: usize, y: usize, e: u8, d: u8) -> (place: Option<usize>)
    requires
        x < 256 && y < 256 && e < 4 && d < 4,
    ensures
        place is Some <==> valid(before(State { x: x as int, y: y as int, d: e as int }, d as int)),
        place matches Some(j) ==> j == index_of(
            before(State { x: x as int, y: y as int, d: e as int }, d as int),
        ) && j < STATES,
{
    if e == 0 {
        if y == 255 {
            None
        } else {
            Some((y + 1) * 1024 + x * 4 + d as usize)
        }
    } else if e == 1 {
        if x == 0 {
            None
        } else {
            Some(y * 1024 + (x - 1) * 4 + d as usize)
        }
    } else if e == 2 {
        if y == 0 {
            None
        } else {
            Some((y - 1) * 1024 + x * 4 + d as usize)
        }
    } else {
        if x == 255 {
            None
        } else {
            Some(y * 1024 + (x + 1) * 4 + d as usize)
        }
    }
}

/// More than any score that a table holds: a thousand and one points for
/// each state.
pub const FAR: usize = 262406144;

/// How many of the first `n` states hold a score.
pub open spec fn known_count(table: Seq<Option<usize>>, n: nat) -> nat
    decreases n,
{
    if n == 0 {
        0
    } else {
        known_count(table, (n - 1) as nat) + if table[n - 1] is Some {
            1nat
        } else {
            0nat
        }
    }
}

/// What a state weighs in a table: its score, or `FAR` where it has none.
pub open spec fn weight_of(entry: Option<usize>) -> nat {
    match entry {
        Some(c) => c as nat,
        None => FAR as nat,
    }
}

/// What the first `n` states weigh together.
pub open spec fn weigh(table: Seq<Option<usize>>, n: nat) -> nat
    decreases n,
{
    if n == 0 {
        0
    } else {
        weigh(table, (n - 1) as nat) + weight_of(table[n - 1])
    }
}

/// Whether no score is higher than it can be: with every state that holds
/// a score, a run can be longer by one step.
pub open spec fn bounded(table: Seq<Option<usize>>) -> bool {
    forall|i: int|
        0 <= i < STATES ==> (#[trigger] table[i] matches Some(c) ==> c + 1001 <= 1001 * known_count(
            table,
            STATES as nat,
        ))
}

/// No more states hold a score than there are.
pub proof fn lemma_known_count(table: Seq<Option<usize>>, n: nat)
    ensures
        known_count(table, n) <= n,
    decreases n,
{
    if n > 0 {
        lemma_known_count(table, (n - 1) as nat);
    }
}

/// What a new entry at one place does to the count and to the weight.
pub proof fn lemma_entry_changed(table: Seq<Option<usize>>, j: int, entry: Option<usize>, n: nat)
    requires
        0 <= j < table.len(),
        n <= table.len(),
    ensures
        known_count(table.update(j, entry), n) + (if j < n && table[j] is Some {
            1nat
        } else {
            0nat
        }) == known_count(table, n) + (if j < n && entry is Some {
            1nat
        } else {
            0nat
        }),
        weigh(table.update(j, entry), n) + (if j < n {
            weight_of(table[j])
        } else {
            0nat
        }) == weigh(table, n) + (if j < n {
            weight_of(entry)
        } else {
            0nat
        }),
    decreases n,
{
    if n > 0 {
        lemma_entry_changed(table, j, entry, (n - 1) as nat);
    }
}

/// Whether the table holds the score of a run for each state that has
/// one, and nought for the start.
pub open spec fn started(
    maze: &Maze,
    from: State,
    table: Seq<Option<usize>>,
    known: Map<int, Seq<State>>,
) -> bool {
    sound(maze, from, table, known) && valid(from) && table[index_of(from)] == Some(0usize)
}

/// Lowers the score of the state one step in the direction `e` from the
/// state at `i`, where the step leads to a lower one, and says whether it
/// did.
fn relax_step(
    maze: &Maze,
    table: &mut Vec<Option<usize>>,
    i: usize,
    e: u8,
    Ghost(from): Ghost<State>,
    Ghost(known): Ghost<Map<int, Seq<State>>>,
) -> (result: (Outcome, Ghost<Map<int, Seq<State>>>))
    requires
        maze.wf(),
        i < STATES,
        e < 4,
        e as int != (state_at(i as int).d + 2) % 4,
        old(table)[i as int] is Some,
        started(maze, from, old(table)@, known),
        bounded(old(table)@),
    ensures
        started(maze, from, final(table)@, result.1@),
        bounded(final(table)@),
        final(table)@[i as int] is Some,
        result.0 == Outcome::Changed ==> weigh(final(table)@, STATES as nat) < weigh(
            old(table)@,
            STATES as nat,
        ),
        result.0 == Outcome::Settled ==> final(table)@ == old(table)@ && (maze.is_edge(
            state_at(i as int),
            next(state_at(i as int), e as int),
        ) ==> no_more(
            final(table)@[index_of(next(state_at(i as int), e as int))],
            final(table)@[i as int]->Some_0 + weight(
                state_at(i as int),
                next(state_at(i as int), e as int),
            ),
        )),
{
    let x = (i / 4) % 256;
    let y = i / 1024;
    let d = (i % 4) as u8;
    let ghost s = state_at(i as int);
    let ghost t = next(s, e as int);
    let ghost before = table@;
    assert(t == next(State { x: x as int, y: y as int, d: 0 }, e as int));
    let j = match step_to(x, y, e) {
        None => {
            return (Outcome::Settled, Ghost(known));
        },
        Some(j) => j,
    };
    assert(j / 4 == t.y * 256 + t.x);
    if maze.walls[j / 4] {
        return (Outcome::Settled, Ghost(known));
    }
    assert(maze.is_edge(s, t));
    assert(state_at(j as int) == t);
    let c = table[i].unwrap();
    let w: usize = if e == d {
        1
    } else {
        1001
    };
    proof {
        lemma_known_count(before, STATES as nat);
        assert(c + 1001 <= 1001 * known_count(before, STATES as nat));
    }
    let score = c + w;
    let lower = match table[j] {
        None => true,
        Some(old_score) => score < old_score,
    };
    if lower {
        let ghost path = known[i as int].push(t);
        proof {
            assert(path.drop_last() =~= known[i as int]);
            assert(ends(from, known[i as int]) == s);
        }
        table.set(j, Some(score));
        let ghost better = known.insert(j as int, path);
        proof {
            let after = table@;
            assert(after == before.update(j as int, Some(score)));
            lemma_entry_changed(before, j as int, Some(score), STATES as nat);
            lemma_known_count(after, STATES as nat);
            assert forall|n: int| 0 <= n < STATES implies (#[trigger] after[n] matches Some(c)
                ==> maze.runs(from, better[n]) && ends(from, better[n]) == state_at(n) && cost(
                from,
                better[n],
            ) == c) by {
                if n != j {
                    assert(after[n] == before[n]);
                    assert(better[n] == known[n]);
                }
            }
            assert forall|n: int| 0 <= n < STATES implies (#[trigger] after[n] matches Some(c) ==> c
                + 1001 <= 1001 * known_count(after, STATES as nat)) by {
                if n != j {
                    assert(after[n] == before[n]);
                }
            }
        }
        (Outcome::Changed, Ghost(better))
    } else {
        (Outcome::Settled, Ghost(known))
    }
}

/// Looks through the table once, and lowers every score that a step from
/// a state with a score leads to.
fn relax(
    maze: &Maze,
    table: &mut Vec<Option<usize>>,
    Ghost(from): Ghost<State>,
    Ghost(known): Ghost<Map<int, Seq<State>>>,
) -> (result: (Outcome, Ghost<Map<int, Seq<State>>>))
    requires
        maze.wf(),
        started(maze, from, old(table)@, known),
        bounded(old(table)@),
    ensures
        started(maze, from, final(table)@, result.1@),
        bounded(final(table)@),
        result.0 == Outcome::Changed ==> weigh(final(table)@, STATES as nat) < weigh(
            old(table)@,
            STATES as nat,
        ),
        result.0 == Outcome::Settled ==> final(table)@ == old(table)@ && settled(
            maze,
            final(table)@,
            STATES as int,
        ),
{
    let mut changed = false;
    let ghost mut paths = known;
    let mut i: usize = 0;
    while i < STATES
        invariant
            maze.wf(),
            i <= STATES,
            started(maze, from, table@, paths),
            bounded(table@),
            weigh(table@, STATES as nat) <= weigh(old(table)@, STATES as nat),
            changed ==> weigh(table@, STATES as nat) < weigh(old(table)@, STATES as nat),
            !changed ==> table@ == old(table)@ && settled(maze, table@, i as int),
        decreases STATES - i,
    {
        if table[i].is_some() {
            let d = (i % 4) as u8;
            let ghost before_steps = table@;
            let (first, Ghost(one)) = relax_step(maze, table, i, d, Ghost(from), Ghost(paths));
            let right = (d + 1) % 4;
            let (second, Ghost(two)) = relax_step(maze, table, i, right, Ghost(from), Ghost(one));
            let left = (d + 3) % 4;
            let (third, Ghost(three)) = relax_step(maze, table, i, left, Ghost(from), Ghost(two));
            proof {
                paths = three;
            }
            if first.is_changed() || second.is_changed() || third.is_changed() {
                changed = true;
            }
            proof {
                if !changed {
                    assert(table@ == before_steps);
                    assert forall|n: int, e: int|
                        #![trigger table@[n], next(state_at(n), e)]
                        0 <= n < i + 1 && 0 <= e < 4 && table@[n] is Some && maze.is_edge(
                            state_at(n),
                            next(state_at(n), e),
                        ) implies no_more(
                        table@[index_of(next(state_at(n), e))],
                        table@[n]->Some_0 + weight(state_at(n), next(state_at(n), e)),
                    ) by {
                        if n == i {
                            assert(e == d || e == right || e == left);
                        }
                    }
                }
            }
        }
        i += 1;
    }
    if changed {
        (Outcome::Changed, Ghost(paths))
    } else {
        (Outcome::Settled, Ghost(paths))
    }
}

/// Whether the table holds for each state the lowest score of a run from
/// the state `from` to it, and nothing for a state to which none leads.
#[verifier::opaque]
pub open spec fn scored(maze: &Maze, from: State, table: Seq<Option<usize>>) -> bool {
    &&& table.len() == STATES
    &&& forall|i: int|
        0 <= i < STATES ==> (#[trigger] table[i] matches Some(c) ==> exists|path: Seq<State>|
            #![trigger maze.runs(from, path)]
            maze.runs(from, path) && ends(from, path) == state_at(i) && cost(from, path) == c)
    &&& forall|path: Seq<State>|
        #![trigger maze.runs(from, path)]
        maze.runs(from, path) ==> valid(ends(from, path)) && no_more(
            table[index_of(ends(from, path))],
            cost(from, path) as int,
        )
}

impl Maze {
    /// The lowest score of a run from a tile, looking in a direction, to
    /// each tile and direction, and nothing for those to which no run
    /// leads.
    pub fn find_scores(&self, start: Point, direction: Direction) -> (result: Option<Vec<Option<usize>>>)
        requires
            self.wf(),
            direction <= WEST,
        ensures
            result is Some,
            result matches Some(table) ==> scored(
                self,
                State { x: start.x as int, y: start.y as int, d: direction as int },
                table@,
            ),
    {
        let ghost from = State { x: start.x as int, y: start.y as int, d: direction as int };
        let mut table: Vec<Option<usize>> = Vec::new();
        let mut i: usize = 0;
        while i < STATES
            invariant
                i <= STATES,
                table.len() == i,
                forall|n: int| 0 <= n < i ==> #[trigger] table[n] is None,
            decreases STATES - i,
        {
            table.push(None);
            i += 1;
        }
        let ghost blank = table@;
        let home = start.y as usize * 1024 + start.x as usize * 4 + direction as usize;
        table.set(home, Some(0));
        let ghost mut known: Map<int, Seq<State>> = Map::empty().insert(home as int, Seq::empty());
        proof {
            assert(state_at(home as int) == from);
            assert(self.runs(from, known[home as int]));
            lemma_none_known(blank, STATES as nat);
            lemma_entry_changed(blank, home as int, Some(0usize), STATES as nat);
            assert(table@ == blank.update(home as int, Some(0usize)));
            assert(known_count(table@, STATES as nat) == 1);
            assert forall|n: int| 0 <= n < STATES implies (#[trigger] table@[n] matches Some(c) ==> c
                + 1001 <= 1001 * known_count(table@, STATES as nat)) by {
                if n != home {
                    assert(table@[n] == blank[n]);
                }
            }
        }
        loop
            invariant
                self.wf(),
                from == (State { x: start.x as int, y: start.y as int, d: direction as int }),
                started(self, from, table@, known),
                bounded(table@),
            decreases weigh(table@, STATES as nat),
        {
            let (outcome, Ghost(better)) = relax(self, &mut table, Ghost(from), Ghost(known));
            proof {
                known = better;
            }
            match outcome {
                Outcome::Settled => {
                    proof {
                        reveal(scored);
                        assert forall|path: Seq<State>|
                            #![trigger self.runs(from, path)]
                            self.runs(from, path) implies valid(ends(from, path)) && no_more(
                            table@[index_of(ends(from, path))],
                            cost(from, path) as int,
                        ) by {
                            lemma_settled_is_lowest(self, from, table@, path);
                        }
                        assert forall|n: int| 0 <= n < STATES implies (#[trigger] table@[n] matches Some(
                            c,
                        ) ==> exists|path: Seq<State>|
                            #![trigger self.runs(from, path)]
                            self.runs(from, path) && ends(from, path) == state_at(n) && cost(
                                from,
                                path,
                            ) == c) by {
                            if table@[n] is Some {
                                assert(self.runs(from, known[n]));
                            }
                        }
                    }
                    return Some(table);
                },
                Outcome::Changed => {},
            }
        }
    }
}

/// Where no state holds a score, none is counted.
proof fn lemma_none_known(table: Seq<Option<usize>>, n: nat)
    requires
        n <= table.len(),
        forall|i: int| 0 <= i < table.len() ==> #[trigger] table[i] is None,
    ensures
        known_count(table, n) == 0,
    decreases n,
{
    if n > 0 {
        lemma_none_known(table, (n - 1) as nat);
    }
}

/// The tile of a state.
pub open spec fn tile_of(s: State) -> Point {
    Point { x: s.x as u8, y: s.y as u8 }
}

/// The tiles of a run, from the tile of the state `from` on.
pub open spec fn tiles(from: State, path: Seq<State>) -> Seq<Point> {
    Seq::new(path.len() + 1, |i: int| tile_of(ends(from, path.take(i))))
}

/// Whether a state is one of the tile.
pub open spec fn is_at(end: Point) -> spec_fn(State) -> bool {
    |s: State| s.x == end.x && s.y == end.y
}

/// A run scores a point or more with each step.
pub proof fn lemma_cost_counts_steps(from: State, path: Seq<State>)
    ensures
        cost(from, path) >= path.len(),
    decreases path.len(),
{
    if path.len() > 0 {
        lemma_cost_counts_steps(from, path.drop_last());
    }
}

/// The tiles of a run that starts with a step are the tile of its start
/// and those of the run after the step.
proof fn lemma_tiles_after_step(s: State, t: State, tail: Seq<State>)
    ensures
        tiles(s, seq![t] + tail) =~= seq![tile_of(s)] + tiles(t, tail),
{
    let whole = seq![t] + tail;
    assert(whole.take(0) =~= Seq::<State>::empty());
    assert forall|i: int| 1 <= i <= whole.len() implies #[trigger] tiles(s, whole)[i] == tiles(
        t,
        tail,
    )[i - 1] by {
        assert(whole.take(i) =~= seq![t] + tail.take(i - 1));
        if i - 1 > 0 {
            assert(whole.take(i).last() == tail.take(i - 1).last());
        }
    }
}

/// A table of lowest scores holds a score for each state.
pub proof fn lemma_scored_all(maze: &Maze, from: State, table: Seq<Option<usize>>)
    requires
        scored(maze, from, table),
    ensures
        table.len() == STATES,
{
    reveal(scored);
}

/// A score in a table of lowest scores is the score of a run.
pub proof fn lemma_scored_run(maze: &Maze, from: State, table: Seq<Option<usize>>, i: int) -> (path:
    Seq<State>)
    requires
        scored(maze, from, table),
        0 <= i < STATES,
        table[i] is Some,
    ensures
        maze.runs(from, path),
        ends(from, path) == state_at(i),
        cost(from, path) == table[i]->Some_0,
{
    reveal(scored);
    choose|path: Seq<State>|
        #![trigger maze.runs(from, path)]
        maze.runs(from, path) && ends(from, path) == state_at(i) && cost(from, path) == table[i]->Some_0
}

/// No run scores less than a table of lowest scores holds for its end.
pub proof fn lemma_scored_least(maze: &Maze, from: State, table: Seq<Option<usize>>, path: Seq<State>)
    requires
        scored(maze, from, table),
        maze.runs(from, path),
    ensures
        valid(ends(from, path)),
        no_more(table[index_of(ends(from, path))], cost(from, path) as int),
{
    reveal(scored);
}

/// A state with a score above nought in a table of lowest scores is
/// reached by a step from a state whose score is lower by what the step
/// costs.
proof fn lemma_step_before(maze: &Maze, from: State, table: Seq<Option<usize>>, j: int) -> (s: State)
    requires
        maze.wf(),
        scored(maze, from, table),
        0 <= j < STATES,
        table[j] matches Some(c) && c > 0,
    ensures
        valid(s),
        maze.is_edge(s, state_at(j)),
        maze.free(state_at(j).x, state_at(j).y),
        s == before(state_at(j), s.d),
        s.d != (state_at(j).d + 2) % 4,
        table[index_of(s)] == Some((table[j]->Some_0 - weight(s, state_at(j))) as usize),
        table[j]->Some_0 >= weight(s, state_at(j)),
{
    let c = table[j]->Some_0;
    let t = state_at(j);
    let path = lemma_scored_run(maze, from, table, j);
    assert(path.len() > 0);
    let shorter = path.drop_last();
    let s = ends(from, shorter);
    assert(maze.runs(from, shorter));
    lemma_scored_least(maze, from, table, shorter);
    let i = index_of(s);
    assert(state_at(i) == s);
    let known = lemma_scored_run(maze, from, table, i);
    let longer = known.push(t);
    assert(longer.drop_last() =~= known);
    assert(maze.runs(from, longer));
    lemma_scored_least(maze, from, table, longer);
    assert(index_of(t) == j);
    s
}

/// The state from which a step leads to the state at `at` on a run with the
/// lowest score, and what the step costs.
fn step_back(maze: &Maze, table: &Vec<Option<usize>>, at: usize, Ghost(from): Ghost<State>) -> (found:
    (usize, usize))
    requires
        maze.wf(),
        scored(maze, from, table@),
        at < STATES,
        table@[at as int] matches Some(c) && c > 0,
    ensures
        found.0 < STATES,
        maze.is_edge(state_at(found.0 as int), state_at(at as int)),
        found.1 == weight(state_at(found.0 as int), state_at(at as int)),
        found.1 <= table@[at as int]->Some_0,
        table@[found.0 as int] == Some((table@[at as int]->Some_0 - found.1) as usize),
{
    proof {
        lemma_scored_all(maze, from, table@);
    }
    let c = table[at].unwrap();
    let x = (at / 4) % 256;
    let y = at / 1024;
    let e = (at % 4) as u8;
    let ghost t = state_at(at as int);
    let ghost known = lemma_step_before(maze, from, table@, at as int);
    let mut turn: u8 = 0;
    while turn < 4
        invariant
            turn <= 4,
            x < 256 && y < 256 && e < 4,
            at < STATES,
            table.len() == STATES,
            table@[at as int] == Some(c),
            t == state_at(at as int),
            t == (State { x: x as int, y: y as int, d: e as int }),
            maze.free(t.x, t.y),
            valid(known),
            known == before(t, known.d),
            known.d != (e + 2) % 4,
            c >= weight(known, t),
            table@[index_of(known)] == Some((c - weight(known, t)) as usize),
            known.d >= turn,
        decreases 4 - turn,
    {
        if turn != (e + 2) % 4 {
            if let Some(i) = step_from(x, y, e, turn) {
                let w: usize = if turn == e {
                    1
                } else {
                    1001
                };
                if c >= w {
                    if let Some(lower) = table[i] {
                        if lower == c - w {
                            assert(state_at(i as int) == before(t, turn as int));
                            return (i, w);
                        }
                    }
                }
            }
        }
        turn += 1;
    }
    (0, 0)
}

/// The lowest score of a run from the start, looking east, to the end, and
/// the tiles of a run with that score; nothing where no run leads to the
/// end.
pub fn find_lowest_score(maze: &Maze, start: Point, end: &Point) -> (result: Option<(usize, Vec<Point>)>)
    requires
        maze.wf(),
    ensures
        result is Some <==> maze.arrives(State { x: start.x as int, y: start.y as int, d: 1 }, *end),
        result matches Some(found) ==> {
            let from = State { x: start.x as int, y: start.y as int, d: 1 };
            &&& maze.is_lowest(from, is_at(*end), found.0 as nat)
            &&& exists|run: Seq<State>|
                #![trigger maze.runs(from, run)]
                maze.runs(from, run) && is_at(*end)(ends(from, run)) && cost(from, run) == found.0
                    && found.1@ == tiles(from, run)
        },
{
    let ghost from = State { x: start.x as int, y: start.y as int, d: 1 };
    let table = match maze.find_scores(start, EAST) {
        None => {
            return None;
        },
        Some(table) => table,
    };
    proof {
        lemma_scored_all(maze, from, table@);
    }
    let base = end.y as usize * 1024 + end.x as usize * 4;
    let mut best: Option<(usize, usize)> = None;
    assert(from == State { x: start.x as int, y: start.y as int, d: 1 });
    let mut d: usize = 0;
    while d < 4
        invariant
            d <= 4,
            base == end.y * 1024 + end.x * 4,
            table.len() == STATES,
            match best {
                Some(b) => base <= b.1 < base + d && table[b.1 as int] == Some(b.0) && forall|e: int|
                    0 <= e < d ==> (#[trigger] table[base + e] matches Some(c) ==> b.0 <= c),
                None => forall|e: int| 0 <= e < d ==> #[trigger] table[base + e] is None,
            },
        decreases 4 - d,
    {
        if let Some(score) = table[base + d] {
            let lower = match best {
                None => true,
                Some(b) => score < b.0,
            };
            if lower {
                best = Some((score, base + d));
            }
        }
        d += 1;
    }
    let (score, goal) = match best {
        None => {
            proof {
                assert forall|run: Seq<State>|
                    #![trigger maze.runs(from, run)]
                    maze.runs(from, run) implies !is_at(*end)(ends(from, run)) by {
                    let stop = ends(from, run);
                    lemma_scored_least(maze, from, table@, run);
                    if is_at(*end)(stop) {
                        assert(index_of(stop) == base + stop.d);
                        assert(table@[base + stop.d] is None);
                    }
                }
            }
            return None;
        },
        Some(b) => b,
    };
    let ghost last = state_at(goal as int);
    let mut path: Vec<Point> = Vec::new();
    path.push(*end);
    let mut at: usize = goal;
    let mut c: usize = score;
    let ghost mut tail: Seq<State> = Seq::empty();
    proof {
        assert(tail.take(0) =~= tail);
        assert(path@ =~= tiles(last, tail));
    }
    while c > 0
        invariant
            maze.wf(),
            scored(maze, from, table@),
            table.len() == STATES,
            at < STATES,
            table[at as int] == Some(c),
            maze.runs(state_at(at as int), tail),
            ends(state_at(at as int), tail) == last,
            cost(state_at(at as int), tail) + c == score,
            path@ == tiles(state_at(at as int), tail),
        decreases c,
    {
        let ghost t = state_at(at as int);
        let (i, w) = step_back(maze, &table, at, Ghost(from));
        proof {
            let s = state_at(i as int);
            let first = seq![t];
            assert(first.drop_last() =~= Seq::<State>::empty());
            assert(first.last() == t);
            assert(maze.runs(s, first.drop_last()));
            assert(ends(s, first.drop_last()) == s);
            assert(maze.runs(s, first));
            assert(cost(s, first.drop_last()) == 0);
            assert(cost(s, first) == w);
            lemma_runs_on(maze, s, first, tail);
            lemma_tiles_after_step(s, t, tail);
            tail = first + tail;
        }
        path.insert(0, Point { x: ((i / 4) % 256) as u8, y: (i / 1024) as u8 });
        at = i;
        c = c - w;
    }
    proof {
        let here = state_at(at as int);
        let known = lemma_scored_run(maze, from, table@, at as int);
        lemma_cost_counts_steps(from, known);
        assert(known.len() == 0);
        assert(here == from);
        assert(maze.runs(from, tail));
        assert(is_at(*end)(last));
        reveal(Maze::is_lowest);
        assert forall|other: Seq<State>|
            #![trigger maze.runs(from, other)]
            maze.runs(from, other) && is_at(*end)(ends(from, other)) implies cost(from, other)
            >= score by {
            let stop = ends(from, other);
            lemma_scored_least(maze, from, table@, other);
            assert(index_of(stop) == base + stop.d);
        }
    }
    Some((score, path))
}

/// Whether a run from the state `from` to the end with the score `best`
/// passes the tile.
pub open spec fn on_best_run(maze: &Maze, from: State, end: Point, best: nat, p: Point) -> bool {
    exists|run: Seq<State>, n: int|
        #![trigger maze.runs(from, run), run.take(n)]
        maze.runs(from, run) && is_at(end)(ends(from, run)) && cost(from, run) == best && 0 <= n
            <= run.len() && tile_of(ends(from, run.take(n))) == p
}

/// Whether every marked state lies on a run with the score `best` to the
/// state `last`: it has its lowest score, and the run that is known for it
/// leads from it to `last` with what is left of `best`.
pub open spec fn marked_well(
    maze: &Maze,
    table: Seq<Option<usize>>,
    marks: Seq<bool>,
    tails: Map<int, Seq<State>>,
    end: Point,
    best: nat,
) -> bool {
    &&& marks.len() == STATES
    &&& forall|i: int|
        0 <= i < STATES && #[trigger] marks[i] ==> table[i] is Some && maze.runs(state_at(i), tails[i])
            && is_at(end)(ends(state_at(i), tails[i])) && table[i]->Some_0 + cost(
            state_at(i),
            tails[i],
        ) == best
}

/// Whether every state from which a step leads to one of the first `upto`
/// states, and to a marked one, at no more than the lowest score of that
/// state, is marked.
pub open spec fn marked_back(maze: &Maze, table: Seq<Option<usize>>, marks: Seq<bool>, upto: int) -> bool {
    forall|j: int, d: int|
        #![trigger marks[j], before(state_at(j), d)]
        0 <= j < upto && 0 <= d < 4 && marks[j] && valid(before(state_at(j), d)) && maze.is_edge(
            before(state_at(j), d),
            state_at(j),
        ) && table[index_of(before(state_at(j), d))] is Some && table[index_of(
            before(state_at(j), d),
        )]->Some_0 + weight(before(state_at(j), d), state_at(j)) == table[j]->Some_0
            ==> marks[index_of(before(state_at(j), d))]
}

/// How many of the first `n` states are not marked.
pub open spec fn unmarked(marks: Seq<bool>, n: nat) -> nat
    decreases n,
{
    if n == 0 {
        0
    } else {
        unmarked(marks, (n - 1) as nat) + if marks[n - 1] {
            0nat
        } else {
            1nat
        }
    }
}

/// A new mark leaves one state fewer that is not marked.
proof fn lemma_marked_one(marks: Seq<bool>, j: int, n: nat)
    requires
        0 <= j < marks.len(),
        n <= marks.len(),
        !marks[j],
    ensures
        unmarked(marks.update(j, true), n) + (if j < n {
            1nat
        } else {
            0nat
        }) == unmarked(marks, n),
    decreases n,
{
    if n > 0 {
        lemma_marked_one(marks, j, (n - 1) as nat);
    }
}

/// Marks the states from which a step leads to a marked state on a run
/// with the lowest score, and says whether it marked any.
#[verifier::rlimit(60)]
fn mark_back(
    maze: &Maze,
    table: &Vec<Option<usize>>,
    marks: &mut Vec<bool>,
    end: Point,
    Ghost(from): Ghost<State>,
    Ghost(best): Ghost<nat>,
    Ghost(tails): Ghost<Map<int, Seq<State>>>,
) -> (result: (bool, Ghost<Map<int, Seq<State>>>))
    requires
        maze.wf(),
        scored(maze, from, table@),
        marked_well(maze, table@, old(marks)@, tails, end, best),
    ensures
        marked_well(maze, table@, final(marks)@, result.1@, end, best),
        forall|i: int| 0 <= i < STATES && old(marks)@[i] ==> #[trigger] final(marks)@[i],
        result.0 ==> unmarked(final(marks)@, STATES as nat) < unmarked(old(marks)@, STATES as nat),
        !result.0 ==> final(marks)@ == old(marks)@ && marked_back(
            maze,
            table@,
            final(marks)@,
            STATES as int,
        ),
{
    proof {
        lemma_scored_all(maze, from, table@);
    }
    let mut changed = false;
    let ghost mut known = tails;
    let mut j: usize = 0;
    while j < STATES
        invariant
            maze.wf(),
            j <= STATES,
            table.len() == STATES,
            scored(maze, from, table@),
            marked_well(maze, table@, marks@, known, end, best),
            forall|i: int| 0 <= i < STATES && old(marks)@[i] ==> #[trigger] marks@[i],
            unmarked(marks@, STATES as nat) <= unmarked(old(marks)@, STATES as nat),
            changed ==> unmarked(marks@, STATES as nat) < unmarked(old(marks)@, STATES as nat),
            !changed ==> marks@ == old(marks)@ && marked_back(maze, table@, marks@, j as int),
        decreases STATES - j,
    {
        if marks[j] {
            let x = (j / 4) % 256;
            let y = j / 1024;
            let e = (j % 4) as u8;
            let ghost t = state_at(j as int);
            let c = table[j].unwrap();
            let free = !maze.walls[j / 4];
            assert(free == maze.free(t.x, t.y));
            let ghost start_marks = marks@;
            let mut turn: u8 = 0;
            while turn < 4
                invariant
                    maze.wf(),
                    turn <= 4,
                    j < STATES,
                    x < 256 && y < 256 && e < 4,
                    t == state_at(j as int),
                    t == (State { x: x as int, y: y as int, d: e as int }),
                    free == maze.free(t.x, t.y),
                    table.len() == STATES,
                    table@[j as int] == Some(c),
                    marks@[j as int],
                    scored(maze, from, table@),
                    marked_well(maze, table@, marks@, known, end, best),
                    forall|i: int| 0 <= i < STATES && old(marks)@[i] ==> #[trigger] marks@[i],
                    forall|i: int| 0 <= i < STATES && start_marks[i] ==> #[trigger] marks@[i],
                    unmarked(marks@, STATES as nat) <= unmarked(old(marks)@, STATES as nat),
                    changed ==> unmarked(marks@, STATES as nat) < unmarked(old(marks)@, STATES as nat),
                    !changed ==> marks@ == old(marks)@ && marked_back(maze, table@, marks@, j as int),
                    forall|d: int|
                        0 <= d < turn && valid(#[trigger] before(t, d)) && maze.is_edge(before(t, d), t)
                            && table@[index_of(before(t, d))] is Some && table@[index_of(
                            before(t, d),
                        )]->Some_0 + weight(before(t, d), t) == c ==> marks@[index_of(before(t, d))],
                decreases 4 - turn,
            {
                let ghost s = before(t, turn as int);
                if free && turn != (e + 2) % 4 {
                    if let Some(i) = step_from(x, y, e, turn) {
                        let w: usize = if turn == e {
                            1
                        } else {
                            1001
                        };
                        assert(state_at(i as int) == s);
                        if c >= w {
                            if let Some(lower) = table[i] {
                                if lower == c - w && !marks[i] {
                                    let ghost tail = seq![t] + known[j as int];
                                    proof {
                                        let first = seq![t];
                                        assert(first.drop_last() =~= Seq::<State>::empty());
                                        assert(first.last() == t);
                                        assert(maze.is_edge(s, t));
                                        assert(maze.runs(s, first.drop_last()));
                                        assert(maze.runs(s, first));
                                        assert(cost(s, first.drop_last()) == 0);
                                        assert(cost(s, first) == w);
                                        lemma_runs_on(maze, s, first, known[j as int]);
                                    }
                                    proof {
                                        lemma_marked_one(marks@, i as int, STATES as nat);
                                    }
                                    marks.set(i, true);
                                    changed = true;
                                    proof {
                                        known = known.insert(i as int, tail);
                                    }
                                }
                            }
                        }
                    }
                }
                turn += 1;
            }
        }
        proof {
            if !changed {
                assert forall|n: int, d: int|
                    #![trigger marks@[n], before(state_at(n), d)]
                    0 <= n < j + 1 && 0 <= d < 4 && marks@[n] && valid(before(state_at(n), d))
                        && maze.is_edge(before(state_at(n), d), state_at(n)) && table@[index_of(
                        before(state_at(n), d),
                    )] is Some && table@[index_of(before(state_at(n), d))]->Some_0 + weight(
                        before(state_at(n), d),
                        state_at(n),
                    ) == table@[n]->Some_0 implies marks@[index_of(before(state_at(n), d))] by {}
            }
        }
        j += 1;
    }
    (changed, Ghost(known))
}

/// In a table of lowest scores, a state on a run with the lowest score to
/// the end has the score of the run up to it.
proof fn lemma_best_run_is_tight(
    maze: &Maze,
    from: State,
    table: Seq<Option<usize>>,
    end: Point,
    best: nat,
    run: Seq<State>,
    n: int,
)
    requires
        maze.wf(),
        scored(maze, from, table),
        maze.is_lowest(from, is_at(end), best),
        maze.runs(from, run),
        is_at(end)(ends(from, run)),
        cost(from, run) == best,
        0 <= n <= run.len(),
    ensures
        valid(ends(from, run.take(n))),
        table[index_of(ends(from, run.take(n)))] is Some,
        table[index_of(ends(from, run.take(n)))]->Some_0 == cost(from, run.take(n)),
{
    lemma_runs_in_parts(maze, from, run, n);
    let s = ends(from, run.take(n));
    lemma_scored_least(maze, from, table, run.take(n));
    let i = index_of(s);
    assert(state_at(i) == s);
    let known = lemma_scored_run(maze, from, table, i);
    lemma_runs_on(maze, from, known, run.skip(n));
    reveal(Maze::is_lowest);
    assert(maze.runs(from, known + run.skip(n)));
}

/// Where the marks are settled, every state on a run with the lowest
/// score to the end is marked.
proof fn lemma_best_run_is_marked(
    maze: &Maze,
    from: State,
    table: Seq<Option<usize>>,
    marks: Seq<bool>,
    end: Point,
    best: nat,
    run: Seq<State>,
    n: int,
)
    requires
        maze.wf(),
        scored(maze, from, table),
        maze.is_lowest(from, is_at(end), best),
        marks.len() == STATES,
        marked_back(maze, table, marks, STATES as int),
        goals_marked(table, marks, end, best),
        maze.runs(from, run),
        is_at(end)(ends(from, run)),
        cost(from, run) == best,
        0 <= n <= run.len(),
    ensures
        valid(ends(from, run.take(n))),
        marks[index_of(ends(from, run.take(n)))],
    decreases run.len() - n,
{
    lemma_best_run_is_tight(maze, from, table, end, best, run, n);
    if n == run.len() {
        assert(run.take(n) =~= run);
        let g = ends(from, run);
        let same = State { x: end.x as int, y: end.y as int, d: g.d };
        assert(g == same);
        assert(no_more(table[index_of(same)], best as int));
        assert(marks[index_of(same)]);
    } else {
        lemma_best_run_is_marked(maze, from, table, marks, end, best, run, n + 1);
        lemma_best_run_is_tight(maze, from, table, end, best, run, n + 1);
        lemma_runs_in_parts(maze, from, run, n + 1);
        let longer = run.take(n + 1);
        assert(longer.drop_last() =~= run.take(n));
        let s = ends(from, run.take(n));
        let t = longer.last();
        assert(ends(from, longer) == t);
        assert(maze.is_edge(s, t));
        let j = index_of(t);
        assert(state_at(j) == t);
        assert(s == before(t, s.d));
        assert(marks[j]);
        assert(valid(before(state_at(j), s.d)));
        assert(cost(from, longer) == cost(from, longer.drop_last()) + weight(s, t));
        assert(table[index_of(s)]->Some_0 == cost(from, run.take(n)));
        assert(table[j]->Some_0 == cost(from, longer));
        assert(maze.is_edge(before(state_at(j), s.d), state_at(j)));
        assert(marks[index_of(before(state_at(j), s.d))]);
    }
}

/// Whether the tiles are those of the runs with the lowest score, `best`,
/// from the start, looking east, to the end, each once.
pub open spec fn are_best_tiles(maze: &Maze, start: Point, end: Point, best: nat, found: Seq<Point>) -> bool {
    let from = State { x: start.x as int, y: start.y as int, d: 1 };
    &&& maze.is_lowest(from, is_at(end), best)
    &&& forall|p: Point| found.contains(p) <==> on_best_run(maze, from, end, best, p)
    &&& found.no_duplicates()
}

/// Whether every state of the end that holds the score `best` is marked.
pub open spec fn goals_marked(table: Seq<Option<usize>>, marks: Seq<bool>, end: Point, best: nat) -> bool {
    forall|d: int|
        0 <= d < 4 ==> (no_more(
            table[#[trigger] index_of(State { x: end.x as int, y: end.y as int, d })],
            best as int,
        ) ==> marks[index_of(State { x: end.x as int, y: end.y as int, d })])
}

/// Marks of which none is set.
fn no_marks() -> (marks: Vec<bool>)
    ensures
        marks.len() == STATES,
        forall|n: int| 0 <= n < STATES ==> !#[trigger] marks[n],
{
    let mut marks: Vec<bool> = Vec::new();
    let mut i: usize = 0;
    while i < STATES
        invariant
            i <= STATES,
            marks.len() == i,
            forall|n: int| 0 <= n < i ==> !#[trigger] marks[n],
        decreases STATES - i,
    {
        marks.push(false);
        i += 1;
    }
    marks
}

/// Marks the states of the end that hold the lowest score.
fn mark_goals(
    maze: &Maze,
    table: &Vec<Option<usize>>,
    end: Point,
    score: usize,
    Ghost(from): Ghost<State>,
) -> (result: (Vec<bool>, Ghost<Map<int, Seq<State>>>))
    requires
        maze.wf(),
        scored(maze, from, table@),
        maze.is_lowest(from, is_at(end), score as nat),
    ensures
        marked_well(maze, table@, result.0@, result.1@, end, score as nat),
        goals_marked(table@, result.0@, end, score as nat),
{
    proof {
        lemma_scored_all(maze, from, table@);
    }
    let ghost best = score as nat;
    let mut marks = no_marks();
    let ghost mut tails: Map<int, Seq<State>> = Map::empty();
    let base = end.y as usize * 1024 + end.x as usize * 4;
    let mut d: usize = 0;
    while d < 4
        invariant
            d <= 4,
            base == end.y * 1024 + end.x * 4,
            best == score,
            table.len() == STATES,
            marked_well(maze, table@, marks@, tails, end, best),
            forall|e: int| 0 <= e < d ==> (table@[base + e] == Some(score) ==> #[trigger] marks@[base + e]),
        decreases 4 - d,
    {
        let ghost old_marks = marks@;
        let ghost old_tails = tails;
        if let Some(c) = table[base + d] {
            if c == score {
                marks.set(base + d, true);
                proof {
                    let blank = Seq::<State>::empty();
                    tails = tails.insert(base + d, blank);
                    let here = state_at(base + d);
                    assert(here == State { x: end.x as int, y: end.y as int, d: d as int });
                    assert(maze.runs(here, blank));
                    assert(is_at(end)(ends(here, blank)));
                    assert(cost(here, blank) == 0);
                    assert forall|i: int| 0 <= i < STATES && #[trigger] marks@[i] implies table@[i] is Some
                        && maze.runs(state_at(i), tails[i]) && is_at(end)(ends(state_at(i), tails[i]))
                        && table@[i]->Some_0 + cost(state_at(i), tails[i]) == best by {
                        if i != base + d {
                            assert(old_marks[i]);
                            assert(tails[i] == old_tails[i]);
                        } else {
                            assert(tails[i] == blank);
                            assert(state_at(i) == here);
                            assert(ends(here, blank) == here);
                        }
                    }
                }
            }
        }
        proof {
            assert forall|e: int| 0 <= e < d + 1 implies (table@[base + e] == Some(score)
                ==> #[trigger] marks@[base + e]) by {
                if e < d {
                    assert(table@[base + e] == Some(score) ==> old_marks[base + e]);
                }
            }
        }
        d += 1;
    }
    proof {
        assert forall|d: int| 0 <= d < 4 implies (no_more(
            table@[#[trigger] index_of(State { x: end.x as int, y: end.y as int, d })],
            best as int,
        ) ==> marks@[index_of(State { x: end.x as int, y: end.y as int, d })]) by {
            let goal = State { x: end.x as int, y: end.y as int, d };
            assert(index_of(goal) == base + d);
            if no_more(table@[base + d], best as int) {
                let known = lemma_scored_run(maze, from, table@, base + d);
                assert(state_at(base + d) == goal);
                reveal(Maze::is_lowest);
                assert(maze.runs(from, known) && is_at(end)(ends(from, known)));
                assert(table@[base + d] == Some(score));
            }
        }
    }
    (marks, Ghost(tails))
}

/// The tiles of which a state is marked, in the order of reading.
fn marked_tiles(marks: &Vec<bool>) -> (found: Vec<Point>)
    requires
        marks.len() == STATES,
    ensures
        found@.no_duplicates(),
        forall|p: Point|
            found@.contains(p) <==> exists|e: int|
                0 <= e < 4 && #[trigger] marks@[(p.y * 256 + p.x) * 4 + e],
{
    let mut found: Vec<Point> = Vec::new();
    let mut tile: usize = 0;
    while tile < 65536
        invariant
            tile <= 65536,
            marks.len() == STATES,
            forall|p: Point|
                found@.contains(p) <==> p.y * 256 + p.x < tile && exists|e: int|
                    0 <= e < 4 && #[trigger] marks@[(p.y * 256 + p.x) * 4 + e],
            forall|a: int, b: int|
                0 <= a < b < found.len() ==> found[a].y * 256 + found[a].x < found[b].y * 256
                    + found[b].x,
            forall|a: int| 0 <= a < found.len() ==> found[a].y * 256 + found[a].x < tile,
        decreases 65536 - tile,
    {
        let any = marks[tile * 4] || marks[tile * 4 + 1] || marks[tile * 4 + 2] || marks[tile * 4 + 3];
        let ghost before_push = found@;
        let here = Point { x: (tile % 256) as u8, y: (tile / 256) as u8 };
        if any {
            found.push(here);
        }
        proof {
            assert forall|p: Point|
                found@.contains(p) <==> p.y * 256 + p.x < tile + 1 && exists|e: int|
                    0 <= e < 4 && #[trigger] marks@[(p.y * 256 + p.x) * 4 + e] by {
                if any {
                    assert(found@ =~= before_push.push(here));
                    if before_push.contains(p) {
                        let k = choose|k: int| 0 <= k < before_push.len() && before_push[k] == p;
                        assert(found@[k] == p);
                    }
                    if found@.contains(p) && !before_push.contains(p) {
                        let k = choose|k: int| 0 <= k < found@.len() && found@[k] == p;
                        assert(k == before_push.len());
                    }
                    if p == here {
                        assert(found@[before_push.len() as int] == p);
                        let e: int = if marks@[tile * 4] {
                            0
                        } else if marks@[tile * 4 + 1] {
                            1
                        } else if marks@[tile * 4 + 2] {
                            2
                        } else {
                            3
                        };
                        assert(marks@[(p.y * 256 + p.x) * 4 + e]);
                    }
                }
                if p.y * 256 + p.x == tile {
                    assert(p == here);
                }
            }
        }
        tile += 1;
    }
    proof {
        assert forall|a: int, b: int| 0 <= a < found.len() && 0 <= b < found.len() && a != b implies found[a]
            != found[b] by {
            if a < b {
                assert(found[a].y * 256 + found[a].x < found[b].y * 256 + found[b].x);
            } else {
                assert(found[b].y * 256 + found[b].x < found[a].y * 256 + found[a].x);
            }
        }
    }
    found
}

/// The tiles of the marked states are those of the runs with the lowest
/// score, where the marks are settled.
proof fn lemma_marks_are_best_tiles(
    maze: &Maze,
    from: State,
    table: Seq<Option<usize>>,
    marks: Seq<bool>,
    tails: Map<int, Seq<State>>,
    end: Point,
    best: nat,
    p: Point,
)
    requires
        maze.wf(),
        scored(maze, from, table),
        maze.is_lowest(from, is_at(end), best),
        marked_well(maze, table, marks, tails, end, best),
        marked_back(maze, table, marks, STATES as int),
        goals_marked(table, marks, end, best),
    ensures
        (exists|e: int| 0 <= e < 4 && #[trigger] marks[(p.y * 256 + p.x) * 4 + e]) <==> on_best_run(
            maze,
            from,
            end,
            best,
            p,
        ),
{
    if exists|e: int| 0 <= e < 4 && #[trigger] marks[(p.y * 256 + p.x) * 4 + e] {
        let e = choose|e: int| 0 <= e < 4 && #[trigger] marks[(p.y * 256 + p.x) * 4 + e];
        let i = (p.y * 256 + p.x) * 4 + e;
        let s = state_at(i);
        assert(marks[i]);
        let known = lemma_scored_run(maze, from, table, i);
        lemma_runs_on(maze, from, known, tails[i]);
        let run = known + tails[i];
        assert(run.take(known.len() as int) =~= known);
        assert(tile_of(s) == p);
        assert(maze.runs(from, run) && 0 <= known.len() <= run.len() && tile_of(
            ends(from, run.take(known.len() as int)),
        ) == p);
    }
    if on_best_run(maze, from, end, best, p) {
        let (run, n) = choose|run: Seq<State>, n: int|
            #![trigger maze.runs(from, run), run.take(n)]
            maze.runs(from, run) && is_at(end)(ends(from, run)) && cost(from, run) == best && 0 <= n
                <= run.len() && tile_of(ends(from, run.take(n))) == p;
        lemma_best_run_is_marked(maze, from, table, marks, end, best, run, n);
        let s = ends(from, run.take(n));
        assert(index_of(s) == (p.y * 256 + p.x) * 4 + s.d);
    }
}

/// The tiles of all runs with the lowest score from the start, looking
/// east, to the end, in the order of reading; nothing where no run leads
/// to the end.
pub fn find_all_tiles_on_the_best_paths(maze: &Maze, start: Point, end: Point) -> (result: Option<
    Vec<Point>,
>)
    requires
        maze.wf(),
    ensures
        result is Some <==> maze.arrives(State { x: start.x as int, y: start.y as int, d: 1 }, end),
        result matches Some(found) ==> exists|best: nat| #[trigger]
            are_best_tiles(maze, start, end, best, found@),
{
    let ghost from = State { x: start.x as int, y: start.y as int, d: 1 };
    let (score, _) = match find_lowest_score(maze, start, &end) {
        None => {
            return None;
        },
        Some(found) => found,
    };
    let ghost best = score as nat;
    let table = match maze.find_scores(start, EAST) {
        None => {
            return None;
        },
        Some(table) => table,
    };
    let (mut marks, Ghost(first_tails)) = mark_goals(maze, &table, end, score, Ghost(from));
    let ghost mut tails = first_tails;
    loop
        invariant
            maze.wf(),
            scored(maze, from, table@),
            marked_well(maze, table@, marks@, tails, end, best),
            goals_marked(table@, marks@, end, best),
        ensures
            marked_well(maze, table@, marks@, tails, end, best),
            goals_marked(table@, marks@, end, best),
            marked_back(maze, table@, marks@, STATES as int),
        decreases unmarked(marks@, STATES as nat),
    {
        let ghost old_marks = marks@;
        let (changed, Ghost(better)) = mark_back(
            maze,
            &table,
            &mut marks,
            end,
            Ghost(from),
            Ghost(best),
            Ghost(tails),
        );
        proof {
            tails = better;
            assert forall|d: int| 0 <= d < 4 implies (no_more(
                table@[#[trigger] index_of(State { x: end.x as int, y: end.y as int, d })],
                best as int,
            ) ==> marks@[index_of(State { x: end.x as int, y: end.y as int, d })]) by {
                let i = index_of(State { x: end.x as int, y: end.y as int, d });
                if no_more(table@[i], best as int) {
                    assert(old_marks[i]);
                }
            }
        }
        if !changed {
            break ;
        }
    }
    let found = marked_tiles(&marks);
    proof {
        assert forall|p: Point| found@.contains(p) <==> on_best_run(maze, from, end, best, p) by {
            lemma_marks_are_best_tiles(maze, from, table@, marks@, tails, end, best, p);
        }
        assert(are_best_tiles(maze, start, end, best, found@));
    }
    let result = Some(found);
    proof {
        assert(are_best_tiles(maze, start, end, best, result->Some_0@));
    }
    result
}

/// The tile of the last `c` among the first `y` lines and the first `x`
/// characters of the line after them; the first tile where there is none.
pub open spec fn last_mark(all: Seq<Seq<char>>, c: char, y: nat, x: nat) -> Point
    decreases y, x,
{
    if x > 0 {
        if all[y as int][x - 1] == c {
            Point { x: (x - 1) as u8, y: y as u8 }
        } else {
            last_mark(all, c, y, (x - 1) as nat)
        }
    } else if y > 0 {
        last_mark(all, c, (y - 1) as nat, all[y - 1].len())
    } else {
        Point { x: 0, y: 0 }
    }
}

/// Whether the lines can be a maze: there are no more than 255 of them,
/// and none has more than 256 characters.
pub open spec fn is_maze(all: Seq<Seq<char>>) -> bool {
    all.len() <= 255 && forall|y: int| 0 <= y < all.len() ==> (#[trigger] all[y]).len() <= 256
}

/// Whether the lines draw a wall on the tile.
pub open spec fn is_wall(all: Seq<Seq<char>>, x: int, y: int) -> bool {
    0 <= y < all.len() && 0 <= x < all[y].len() && all[y][x] == '#'
}

/// A step of a search: a tile, the direction in which the reindeer looks,
/// the score up to it, and the tiles before it.
#[derive(Debug)]
pub struct Step {
    pub distance: usize,
    pub node: Point,
    pub direction: Direction,
    pub path: Vec<Point>,
}

/// A copy of the tiles.
fn copy_tiles(points: &Vec<Point>) -> (copy: Vec<Point>)
    ensures
        copy@ == points@,
{
    let mut copy: Vec<Point> = Vec::new();
    let mut i: usize = 0;
    while i < points.len()
        invariant
            i <= points.len(),
            copy@ == points@.take(i as int),
        decreases points.len() - i,
    {
        copy.push(points[i]);
        assert(points@.take(i + 1) =~= points@.take(i as int).push(points[i as int]));
        i += 1;
    }
    assert(points@.take(i as int) == points@);
    copy
}

/// The steps from a step on a tile that does not lie at the border of the
/// maze: straight on, and after a turn to the right and to the left, each
/// to a tile that is no wall, with the tile of the step at the end of its
/// path.
pub fn get_neighbours(current: Step, maze: &Maze) -> (found: Vec<Step>)
    requires
        maze.wf(),
        current.direction <= WEST,
        0 < current.node.x < 255,
        0 < current.node.y < 255,
        current.distance <= usize::MAX - 1001,
    ensures
        found.len() <= 3,
        forall|i: int|
            0 <= i < found.len() ==> {
                let next_step = #[trigger] found[i];
                let s = State {
                    x: current.node.x as int,
                    y: current.node.y as int,
                    d: current.direction as int,
                };
                let t = State {
                    x: next_step.node.x as int,
                    y: next_step.node.y as int,
                    d: next_step.direction as int,
                };
                &&& maze.is_edge(s, t)
                &&& next_step.distance == current.distance + weight(s, t)
                &&& next_step.path@ == current.path@.push(current.node)
            },
        forall|d: int|
            0 <= d < 4 && maze.is_edge(
                State { x: current.node.x as int, y: current.node.y as int, d: current.direction as int },
                #[trigger] next(
                    State {
                        x: current.node.x as int,
                        y: current.node.y as int,
                        d: current.direction as int,
                    },
                    d,
                ),
            ) ==> exists|i: int| 0 <= i < found.len() && #[trigger] found[i].direction == d,
{
    let ghost s = State {
        x: current.node.x as int,
        y: current.node.y as int,
        d: current.direction as int,
    };
    let mut new_path = copy_tiles(&current.path);
    new_path.push(current.node);
    let direction_cw = rotate(&current.direction, 1);
    let direction_ccw = rotate(&current.direction, 3);
    let mut found: Vec<Step> = Vec::new();
    let node = current.node.apply(current.direction);
    if !maze.walls[node.y as usize * 256 + node.x as usize] {
        found.push(
            Step {
                distance: current.distance + 1,
                direction: current.direction,
                node,
                path: copy_tiles(&new_path),
            },
        );
    }
    let ghost one = found@;
    let node = current.node.apply(direction_cw);
    if !maze.walls[node.y as usize * 256 + node.x as usize] {
        found.push(
            Step {
                distance: current.distance + 1001,
                direction: direction_cw,
                node,
                path: copy_tiles(&new_path),
            },
        );
    }
    let ghost two = found@;
    let node = current.node.apply(direction_ccw);
    if !maze.walls[node.y as usize * 256 + node.x as usize] {
        found.push(
            Step { distance: current.distance + 1001, direction: direction_ccw, node, path: new_path },
        );
    }
    proof {
        assert forall|d: int| 0 <= d < 4 && maze.is_edge(s, #[trigger] next(s, d)) implies exists|i: int|
            0 <= i < found.len() && #[trigger] found[i].direction == d by {
            if d == current.direction {
                assert(one.len() == 1);
                assert(found[0] == one[0]);
                assert(found[0].direction == d);
            } else if d == direction_cw {
                let at = one.len() as int;
                assert(two.len() == at + 1);
                assert(found[at] == two[at]);
                assert(found[at].direction == d);
            } else {
                assert(d == direction_ccw);
                let at = two.len() as int;
                assert(found[at].direction == d);
            }
        }
    }
    found
}

impl Maze {
    /// The maze that the text draws, and the tiles of its last `S` and its
    /// last `E`; nothing where the text has too many lines or too long a
    /// line.
    pub fn parse(input: &str) -> (result: Option<(Maze, Point, Point)>)
        ensures
            result is Some <==> is_maze(lines_of(input@)),
            result matches Some(found) ==> {
                &&& found.0.wf()
                &&& forall|x: int, y: int|
                    0 <= x < 256 && 0 <= y < 256 ==> #[trigger] found.0.walls[y * 256 + x] == is_wall(
                        lines_of(input@),
                        x,
                        y,
                    )
                &&& found.1 == last_mark(lines_of(input@), 'S', lines_of(input@).len(), 0)
                &&& found.2 == last_mark(lines_of(input@), 'E', lines_of(input@).len(), 0)
            },
    {
        let all = lines(input);
        let ghost text = views(all@);
        if all.len() > 255 {
            return None;
        }
        let mut walls: Vec<bool> = Vec::new();
        let mut start = Point { x: 0, y: 0 };
        let mut end = Point { x: 0, y: 0 };
        let mut y: usize = 0;
        while y < 256
            invariant
                y <= 256,
                all.len() <= 255,
                text == views(all@),
                text == lines_of(input@),
                walls.len() == y * 256,
                forall|v: int| 0 <= v < y && v < text.len() ==> (#[trigger] text[v]).len() <= 256,
                forall|u: int, v: int|
                    0 <= u < 256 && 0 <= v < y ==> #[trigger] walls[v * 256 + u] == is_wall(text, u, v),
                start == last_mark(text, 'S', if y < text.len() {
                    y as nat
                } else {
                    text.len()
                }, 0),
                end == last_mark(text, 'E', if y < text.len() {
                    y as nat
                } else {
                    text.len()
                }, 0),
            decreases 256 - y,
        {
            let ghost before_row = walls@;
            if y < all.len() {
                let line = &all[y];
                assert(text[y as int] == line@);
                if line.len() > 256 {
                    return None;
                }
                let mut x: usize = 0;
                while x < 256
                    invariant
                        x <= 256,
                        y < all.len(),
                        all.len() <= 255,
                        line.len() <= 256,
                        text == views(all@),
                        text[y as int] == line@,
                        walls.len() == y * 256 + x,
                        forall|n: int| 0 <= n < y * 256 ==> walls[n] == before_row[n],
                        forall|u: int| 0 <= u < x ==> #[trigger] walls[y * 256 + u] == is_wall(text, u, y as int),
                        start == last_mark(text, 'S', y as nat, if x < line.len() {
                            x as nat
                        } else {
                            line@.len()
                        }),
                        end == last_mark(text, 'E', y as nat, if x < line.len() {
                            x as nat
                        } else {
                            line@.len()
                        }),
                    decreases 256 - x,
                {
                    if x < line.len() {
                        let c = line[x];
                        walls.push(c == '#');
                        if c == 'S' {
                            start = Point { x: x as u8, y: y as u8 };
                        } else if c == 'E' {
                            end = Point { x: x as u8, y: y as u8 };
                        }
                    } else {
                        walls.push(false);
                    }
                    x += 1;
                }
            } else {
                let mut x: usize = 0;
                while x < 256
                    invariant
                        x <= 256,
                        y >= all.len(),
                        text == views(all@),
                        walls.len() == y * 256 + x,
                        forall|n: int| 0 <= n < y * 256 ==> walls[n] == before_row[n],
                        forall|u: int| 0 <= u < x ==> #[trigger] walls[y * 256 + u] == is_wall(text, u, y as int),
                    decreases 256 - x,
                {
                    walls.push(false);
                    x += 1;
                }
            }
            proof {
                assert forall|u: int, v: int| 0 <= u < 256 && 0 <= v < y + 1 implies #[trigger] walls[v
                    * 256 + u] == is_wall(text, u, v) by {
                    if v < y {
                        assert(walls[v * 256 + u] == before_row[v * 256 + u]);
                    }
                }
            }
            y += 1;
        }
        Some((Maze { walls }, start, end))
    }
}

/// Whether the maze is the one that the lines draw.
pub open spec fn drawn(all: Seq<Seq<char>>, maze: Maze) -> bool {
    &&& maze.wf()
    &&& forall|x: int, y: int|
        0 <= x < 256 && 0 <= y < 256 ==> #[trigger] maze.walls[y * 256 + x] == is_wall(all, x, y)
}

/// Whether `score` is the lowest score of a run from the last `S` of the
/// lines to their last `E` through the maze, and `tiles` the tiles of the
/// runs with that score.
pub open spec fn is_answer(all: Seq<Seq<char>>, maze: Maze, tiles: Seq<Point>, score: usize) -> bool {
    drawn(all, maze) && are_best_tiles(
        &maze,
        last_mark(all, 'S', all.len(), 0),
        last_mark(all, 'E', all.len(), 0),
        score as nat,
        tiles,
    )
}

/// There is one lowest score.
pub proof fn lemma_one_lowest(maze: &Maze, from: State, is_goal: spec_fn(State) -> bool, a: nat, b: nat)
    requires
        maze.is_lowest(from, is_goal, a),
        maze.is_lowest(from, is_goal, b),
    ensures
        a == b,
{
    reveal(Maze::is_lowest);
    let one = choose|path: Seq<State>|
        #![trigger maze.runs(from, path)]
        maze.runs(from, path) && is_goal(ends(from, path)) && cost(from, path) == a;
    let other = choose|path: Seq<State>|
        #![trigger maze.runs(from, path)]
        maze.runs(from, path) && is_goal(ends(from, path)) && cost(from, path) == b;
    assert(maze.runs(from, one) && maze.runs(from, other));
}

/// In mazes with the same walls the same runs are run.
pub proof fn lemma_same_walls(one: &Maze, other: &Maze, from: State, path: Seq<State>)
    requires
        one.walls@ == other.walls@,
        one.runs(from, path),
    ensures
        other.runs(from, path),
    decreases path.len(),
{
    if path.len() > 0 {
        lemma_same_walls(one, other, from, path.drop_last());
    }
}

/// Whether a run leads from the last `S` of the lines, looking east, to
/// their last `E` through the maze that they draw.
pub open spec fn can_arrive(all: Seq<Seq<char>>) -> bool {
    let start = last_mark(all, 'S', all.len(), 0);
    let end = last_mark(all, 'E', all.len(), 0);
    exists|maze: Maze| #[trigger]
        drawn(all, maze) && maze.arrives(State { x: start.x as int, y: start.y as int, d: 1 }, end)
}

/// The lowest score of a run from the `S` to the `E` of the maze that the
/// text draws, and the number of tiles on the runs with that score;
/// nothing where the text draws no maze, or where no run leads to the end.
pub fn solve(input: &str) -> (result: Option<(usize, usize)>)
    ensures
        result is Some <==> is_maze(lines_of(input@)) && can_arrive(lines_of(input@)),
        result matches Some(found) ==> exists|maze: Maze, tiles: Seq<Point>| #[trigger]
            is_answer(lines_of(input@), maze, tiles, found.0) && found.1 == tiles.len(),
{
    let ghost all = lines_of(input@);
    let (maze, start, end) = match Maze::parse(input) {
        None => {
            return None;
        },
        Some(found) => found,
    };
    let ghost from = State { x: start.x as int, y: start.y as int, d: 1 };
    proof {
        assert(drawn(all, maze));
        if !maze.arrives(from, end) {
            assert forall|other: Maze| #[trigger] drawn(all, other) implies !other.arrives(
                from,
                end,
            ) by {
                if other.arrives(from, end) {
                    let run = choose|run: Seq<State>|
                        #![trigger other.runs(from, run)]
                        other.runs(from, run) && is_at(end)(ends(from, run));
                    assert(other.walls@ =~= maze.walls@) by {
                        assert forall|n: int| 0 <= n < 65536 implies other.walls@[n] == maze.walls@[n] by {
                            assert(other.walls[(n / 256) * 256 + n % 256] == is_wall(
                                all,
                                n % 256,
                                n / 256,
                            ));
                            assert(maze.walls[(n / 256) * 256 + n % 256] == is_wall(
                                all,
                                n % 256,
                                n / 256,
                            ));
                        }
                    }
                    lemma_same_walls(&other, &maze, from, run);
                    assert(maze.runs(from, run));
                }
            }
        }
    }
    let (part1, _) = match find_lowest_score(&maze, start, &end) {
        None => {
            return None;
        },
        Some(found) => found,
    };
    let part2_path = match find_all_tiles_on_the_best_paths(&maze, start, end) {
        None => {
            return None;
        },
        Some(found) => found,
    };
    let part2 = part2_path.len();
    proof {
        let best = choose|best: nat| #[trigger] are_best_tiles(&maze, start, end, best, part2_path@);
        lemma_one_lowest(&maze, from, is_at(end), best, part1 as nat);
        assert(is_answer(all, maze, part2_path@, part1));
        assert(drawn(all, maze) && maze.arrives(from, end));
    }
    let result = Some((part1, part2));
    proof {
        assert(is_answer(all, maze, part2_path@, result->Some_0.0));
    }
    result
}

} // verus!
