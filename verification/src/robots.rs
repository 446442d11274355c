//! Robots that move over a space of 101 by 103 tiles and come in again on
//! the other side where they leave it.
//!
//! The speed of a robot is held raised by the width and by the height of
//! the space, so that it is not below 0.

use crate::text::{
    copy_range, first_index_of, is_signed_number, lines, lines_of, parse_signed, signed_value, views,
};
use vstd::prelude::*;

verus! {

pub const SPACE_WIDTH: i16 = 101;

pub const SPACE_HEIGHT: i16 = 103;

pub const HALF_WIDTH: i16 = 50;

pub const HALF_HEIGHT: i16 = 51;

/// A place, or a step from one place to another.
#[derive(Clone, Copy, Debug)]
pub struct Point {
    pub x: i16,
    pub y: i16,
}

/// A robot: where it is, and the step that it takes in a second.
#[derive(Clone, Copy, Debug)]
pub struct Robot {
    pub location: Point,
    pub vector: Point,
}

impl Robot {
    /// The invariant of a robot: neither its place nor its step is below 0.
    pub open spec fn wf(&self) -> bool {
        0 <= self.location.x && 0 <= self.location.y && 0 <= self.vector.x && 0 <= self.vector.y
    }

    /// The column of the robot after `seconds` seconds.
    pub open spec fn column_after(&self, seconds: int) -> int {
        (self.location.x + self.vector.x * seconds) % (SPACE_WIDTH as int)
    }

    /// The row of the robot after `seconds` seconds.
    pub open spec fn row_after(&self, seconds: int) -> int {
        (self.location.y + self.vector.y * seconds) % (SPACE_HEIGHT as int)
    }

    /// The quadrant in which the robot is after `seconds` seconds: 0 to 3,
    /// or 4 for the middle column and the middle row.
    pub open spec fn quadrant_after(&self, seconds: int) -> int {
        let px = self.column_after(seconds);
        let py = self.row_after(seconds);
        if px < HALF_WIDTH && py < HALF_HEIGHT {
            0
        } else if px < HALF_WIDTH && py > HALF_HEIGHT {
            1
        } else if px > HALF_WIDTH && py < HALF_HEIGHT {
            2
        } else if px > HALF_WIDTH && py > HALF_HEIGHT {
            3
        } else {
            4
        }
    }
}

/// Whether all of the robots are well-formed.
pub open spec fn all_wf(robots: Seq<Robot>) -> bool {
    forall|i: int| 0 <= i < robots.len() ==> (#[trigger] robots[i]).wf()
}

/// The number of the first `n` robots that are in `quadrant` after
/// `seconds` seconds.
pub open spec fn in_quadrant(robots: Seq<Robot>, n: nat, quadrant: int, seconds: int) -> nat
    decreases n,
{
    if n == 0 {
        0
    } else {
        in_quadrant(robots, (n - 1) as nat, quadrant, seconds) + if robots[n - 1].quadrant_after(
            seconds,
        ) == quadrant {
            1nat
        } else {
            0nat
        }
    }
}

proof fn lemma_in_quadrant_bound(robots: Seq<Robot>, n: nat, quadrant: int, seconds: int)
    ensures
        in_quadrant(robots, n, quadrant, seconds) <= n,
    decreases n,
{
    if n > 0 {
        lemma_in_quadrant_bound(robots, (n - 1) as nat, quadrant, seconds);
    }
}

/// The product of the numbers of robots in the four quadrants after so
/// many seconds.
pub open spec fn safety_factor(robots: Seq<Robot>, seconds: int) -> nat {
    in_quadrant(robots, robots.len(), 0, seconds) * in_quadrant(robots, robots.len(), 1, seconds)
        * in_quadrant(robots, robots.len(), 2, seconds) * in_quadrant(
        robots,
        robots.len(),
        3,
        seconds,
    )
}

/// The safety factor after `seconds` seconds: the product of the numbers of
/// robots in the four quadrants, multiplied one after the other; nothing
/// where there are more than 65535 robots, or a product does not fit in 32
/// bits.
pub fn calculate_safety_factor(robots: &Vec<Robot>, seconds: i16) -> (factor: Option<u32>)
    requires
        all_wf(robots@),
        seconds >= 0,
    ensures
        factor matches Some(product) ==> product == safety_factor(robots@, seconds as int),
        factor is Some <==> robots.len() <= 65535 && in_quadrant(
            robots@,
            robots.len() as nat,
            0,
            seconds as int,
        ) * in_quadrant(robots@, robots.len() as nat, 1, seconds as int) <= u32::MAX && in_quadrant(
            robots@,
            robots.len() as nat,
            0,
            seconds as int,
        ) * in_quadrant(robots@, robots.len() as nat, 1, seconds as int) * in_quadrant(
            robots@,
            robots.len() as nat,
            2,
            seconds as int,
        ) <= u32::MAX && safety_factor(robots@, seconds as int) <= u32::MAX,
{
    if robots.len() > 65535 {
        return None;
    }
    let mut first: u32 = 0;
    let mut second: u32 = 0;
    let mut third: u32 = 0;
    let mut fourth: u32 = 0;
    let mut i: usize = 0;
    while i < robots.len()
        invariant
            i <= robots.len() <= 65535,
            all_wf(robots@),
            seconds >= 0,
            first == in_quadrant(robots@, i as nat, 0, seconds as int),
            second == in_quadrant(robots@, i as nat, 1, seconds as int),
            third == in_quadrant(robots@, i as nat, 2, seconds as int),
            fourth == in_quadrant(robots@, i as nat, 3, seconds as int),
        decreases robots.len() - i,
    {
        let robot = &robots[i];
        proof {
            assert(robots@[i as int].wf());
            lemma_in_quadrant_bound(robots@, i as nat, 0, seconds as int);
            lemma_in_quadrant_bound(robots@, i as nat, 1, seconds as int);
            lemma_in_quadrant_bound(robots@, i as nat, 2, seconds as int);
            lemma_in_quadrant_bound(robots@, i as nat, 3, seconds as int);
            assert(0 <= robot.vector.x * seconds <= 32767 * 32767) by (nonlinear_arith)
                requires
                    0 <= robot.vector.x <= 32767,
                    0 <= seconds <= 32767,
            ;
            assert(0 <= robot.vector.y * seconds <= 32767 * 32767) by (nonlinear_arith)
                requires
                    0 <= robot.vector.y <= 32767,
                    0 <= seconds <= 32767,
            ;
        }
        let px = (robot.location.x as i64 + robot.vector.x as i64 * seconds as i64) % (
        SPACE_WIDTH as i64);
        let py = (robot.location.y as i64 + robot.vector.y as i64 * seconds as i64) % (
        SPACE_HEIGHT as i64);
        if px < HALF_WIDTH as i64 && py < HALF_HEIGHT as i64 {
            first += 1;
        } else if px < HALF_WIDTH as i64 && py > HALF_HEIGHT as i64 {
            second += 1;
        } else if px > HALF_WIDTH as i64 && py < HALF_HEIGHT as i64 {
            third += 1;
        } else if px > HALF_WIDTH as i64 && py > HALF_HEIGHT as i64 {
            fourth += 1;
        }
        i += 1;
    }
    match first.checked_mul(second) {
        None => None,
        Some(two) => match two.checked_mul(third) {
            None => None,
            Some(three) => three.checked_mul(fourth),
        },
    }
}

/// The place of a robot one second later.
pub open spec fn moved(robot: Robot) -> Robot {
    Robot {
        location: Point {
            x: ((robot.location.x + robot.vector.x) % (SPACE_WIDTH as int)) as i16,
            y: ((robot.location.y + robot.vector.y) % (SPACE_HEIGHT as int)) as i16,
        },
        vector: robot.vector,
    }
}

/// The robots `seconds` seconds later.
pub open spec fn all_moved(robots: Seq<Robot>, seconds: nat) -> Seq<Robot>
    decreases seconds,
{
    if seconds == 0 {
        robots
    } else {
        let before = all_moved(robots, (seconds - 1) as nat);
        Seq::new(before.len(), |i: int| moved(before[i]))
    }
}

/// Whether no two of the robots are on the same tile.
pub open spec fn apart(robots: Seq<Robot>) -> bool {
    forall|i: int, j: int|
        0 <= i < j < robots.len() ==> !((#[trigger] robots[i]).location.x == (
        #[trigger] robots[j]).location.x && robots[i].location.y == robots[j].location.y)
}

/// Whether the first `n` robots are on tiles of their own: none of them is
/// where one of the robots before it is.
fn are_apart(robots: &Vec<Robot>) -> (unique: bool)
    requires
        forall|i: int|
            0 <= i < robots.len() ==> 0 <= (#[trigger] robots[i]).location.x < SPACE_WIDTH && 0
                <= robots[i].location.y < SPACE_HEIGHT,
    ensures
        unique == apart(robots@),
{
    let mut taken: Vec<bool> = Vec::new();
    let mut t: usize = 0;
    while t < 10403
        invariant
            t <= 10403,
            taken.len() == t,
            forall|k: int| 0 <= k < t ==> !#[trigger] taken[k],
        decreases 10403 - t,
    {
        taken.push(false);
        t += 1;
    }
    let mut i: usize = 0;
    while i < robots.len()
        invariant
            i <= robots.len(),
            taken.len() == 10403,
            forall|n: int|
                0 <= n < robots.len() ==> 0 <= (#[trigger] robots[n]).location.x < SPACE_WIDTH && 0
                    <= robots[n].location.y < SPACE_HEIGHT,
            forall|a: int, b: int|
                0 <= a < b < i ==> !((#[trigger] robots[a]).location.x == (
                #[trigger] robots[b]).location.x && robots[a].location.y == robots[b].location.y),
            forall|k: int|
                0 <= k < 10403 ==> (#[trigger] taken[k] <==> exists|a: int|
                    0 <= a < i && (#[trigger] robots[a]).location.x * 103 + robots[a].location.y == k),
        decreases robots.len() - i,
    {
        let robot = &robots[i];
        assert(0 <= robots[i as int].location.x < SPACE_WIDTH);
        let key = robot.location.x as usize * 103 + robot.location.y as usize;
        if taken[key] {
            proof {
                let a = choose|a: int|
                    0 <= a < i && (#[trigger] robots[a]).location.x * 103 + robots[a].location.y
                        == key;
                assert(robots[a].location.x == robots[i as int].location.x);
            }
            return false;
        }
        let ghost before = taken@;
        taken.set(key, true);
        proof {
            assert forall|k: int| 0 <= k < 10403 implies (#[trigger] taken[k] <==> exists|a: int|
                0 <= a < i + 1 && (#[trigger] robots[a]).location.x * 103 + robots[a].location.y
                    == k) by {
                if k == key {
                    assert(robots[i as int].location.x * 103 + robots[i as int].location.y == k);
                } else if before[k] {
                    let a = choose|a: int|
                        0 <= a < i && (#[trigger] robots[a]).location.x * 103
                            + robots[a].location.y == k;
                    assert(0 <= a < i + 1);
                }
            }
            assert forall|a: int, b: int| 0 <= a < b < i + 1 implies !((
            #[trigger] robots[a]).location.x == (#[trigger] robots[b]).location.x
                && robots[a].location.y == robots[b].location.y) by {
                if b == i && robots[a].location.x == robots[b].location.x && robots[a].location.y
                    == robots[b].location.y {
                    assert(robots[a].location.x * 103 + robots[a].location.y == key);
                    assert(before[key as int]);
                }
            }
        }
        i += 1;
    }
    true
}

/// Lets the robots move, second by second, until no two of them are on the
/// same tile, and tells after how many seconds that is; nothing where it has
/// not come about after 65535 seconds.
pub fn find_easter_egg(robots: &mut Vec<Robot>) -> (seconds: Option<u16>)
    requires
        all_wf(old(robots)@),
    ensures
        match seconds {
            Some(found) => {
                &&& found >= 1
                &&& final(robots)@ == all_moved(old(robots)@, found as nat)
                &&& apart(final(robots)@)
                &&& forall|earlier: nat|
                    1 <= earlier < found ==> !apart(#[trigger] all_moved(old(robots)@, earlier))
            },
            None => forall|earlier: nat|
                1 <= earlier <= 65535 ==> !apart(#[trigger] all_moved(old(robots)@, earlier)),
        },
{
    let mut seconds: u16 = 0;
    while seconds < 65535
        invariant
            robots@ == all_moved(old(robots)@, seconds as nat),
            all_wf(robots@),
            forall|earlier: nat|
                1 <= earlier <= seconds ==> !apart(#[trigger] all_moved(old(robots)@, earlier)),
        decreases 65535 - seconds,
    {
        let ghost before = robots@;
        let mut i: usize = 0;
        while i < robots.len()
            invariant
                i <= robots.len(),
                robots.len() == before.len(),
                all_wf(before),
                forall|j: int| 0 <= j < i ==> #[trigger] robots[j] == moved(before[j]),
                forall|j: int| i <= j < robots.len() ==> #[trigger] robots[j] == before[j],
            decreases robots.len() - i,
        {
            let robot = robots[i];
            assert(before[i as int].wf());
            let x = ((robot.location.x as i32 + robot.vector.x as i32) % (SPACE_WIDTH as i32)) as i16;
            let y = ((robot.location.y as i32 + robot.vector.y as i32) % (SPACE_HEIGHT as i32)) as i16;
            robots.set(i, Robot { location: Point { x, y }, vector: robot.vector });
            i += 1;
        }
        seconds += 1;
        proof {
            assert(robots@ == all_moved(old(robots)@, seconds as nat));
            assert forall|j: int| 0 <= j < robots.len() implies (#[trigger] robots[j]).wf() && 0
                <= robots[j].location.x < SPACE_WIDTH && 0 <= robots[j].location.y < SPACE_HEIGHT by {
                assert(before[j].wf());
                assert(robots[j] == moved(before[j]));
            }
        }
        if are_apart(robots) {
            return Some(seconds);
        }
    }
    None
}

/// Whether a line writes a robot: `p=`, its column, a comma, its row, a
/// blank, `v=`, and its step along the row and along the column, with a
/// comma between. The place is not below 0, and the step not below the
/// width and the height of the space taken from 0.
pub open spec fn writes_robot(line: Seq<char>, comma1: int, space: int, comma2: int) -> bool {
    &&& 2 <= comma1 < space
    &&& space + 3 <= comma2 < line.len()
    &&& line[comma1] == ','
    &&& forall|j: int| 0 <= j < comma1 ==> line[j] != ','
    &&& line[space] == ' '
    &&& forall|j: int| 0 <= j < space ==> line[j] != ' '
    &&& line[comma2] == ','
    &&& forall|j: int| space <= j < comma2 ==> line[j] != ','
    &&& is_place(line.subrange(2, comma1))
    &&& is_place(line.subrange(comma1 + 1, space))
    &&& is_speed(line.subrange(space + 3, comma2), SPACE_WIDTH as int)
    &&& is_speed(line.skip(comma2 + 1), SPACE_HEIGHT as int)
}

/// Whether `s` writes a number from 0 to 32767.
pub open spec fn is_place(s: Seq<char>) -> bool {
    is_signed_number(s) && 0 <= signed_value(s) <= i16::MAX
}

/// Whether `s` writes a number that, raised by `by`, lies from 0 to 32767.
pub open spec fn is_speed(s: Seq<char>, by: int) -> bool {
    is_signed_number(s) && 0 <= signed_value(s) + by <= i16::MAX
}

/// Whether the line writes the robot: its place, and its step raised by
/// the width and the height of the space.
pub open spec fn is_robot_of(line: Seq<char>, found: Robot) -> bool {
    exists|comma1: int, space: int, comma2: int|
        {
            &&& writes_robot(line, comma1, space, comma2)
            &&& found.location.x == signed_value(line.subrange(2, comma1))
            &&& found.location.y == signed_value(line.subrange(comma1 + 1, space))
            &&& found.vector.x == signed_value(line.subrange(space + 3, comma2)) + SPACE_WIDTH
            &&& found.vector.y == signed_value(line.skip(comma2 + 1)) + SPACE_HEIGHT
        }
}

/// Whether the lines write the robots, one on each line.
pub open spec fn are_robots_of(all: Seq<Seq<char>>, robots: Seq<Robot>) -> bool {
    &&& robots.len() == all.len()
    &&& all_wf(robots)
    &&& forall|i: int| 0 <= i < all.len() ==> is_robot_of(all[i], #[trigger] robots[i])
}

/// The robot that a line writes, if it writes one.
fn parse_robot(line: &Vec<char>) -> (robot: Option<Robot>)
    ensures
        robot is Some <==> exists|comma1: int, space: int, comma2: int|
            writes_robot(line@, comma1, space, comma2),
        robot matches Some(found) ==> found.wf() && is_robot_of(line@, found),
{
    let i_comma1 = match first_index_of(line, ',') {
        None => {
            return None;
        },
        Some(index) => index,
    };
    let i_space = match first_index_of(line, ' ') {
        None => {
            return None;
        },
        Some(index) => index,
    };
    let rest = copy_range(line, i_space, line.len());
    let i_comma2 = match first_index_of(&rest, ',') {
        None => {
            proof {
                assert forall|comma1: int, space: int, comma2: int|
                    !writes_robot(line@, comma1, space, comma2) by {
                    if writes_robot(line@, comma1, space, comma2) {
                        if space < i_space {
                            assert(line[space] != ' ');
                        } else if space > i_space {
                            assert(line[i_space as int] != ' ');
                        }
                        assert(rest@[comma2 - space] == line@[comma2]);
                    }
                }
            }
            return None;
        },
        Some(index) => index + i_space,
    };
    proof {
        assert forall|comma1: int, space: int, comma2: int|
            writes_robot(line@, comma1, space, comma2) implies comma1 == i_comma1 && space
            == i_space && comma2 == i_comma2 by {
            if comma1 < i_comma1 {
                assert(line[comma1] != ',');
            } else if comma1 > i_comma1 {
                assert(line[i_comma1 as int] != ',');
            }
            if space < i_space {
                assert(line[space] != ' ');
            } else if space > i_space {
                assert(line[i_space as int] != ' ');
            }
            if space == i_space {
                if comma2 < i_comma2 {
                    assert(rest@[comma2 - i_space] == line@[comma2]);
                } else if comma2 > i_comma2 {
                    assert(rest@[i_comma2 - i_space] == line@[i_comma2 as int]);
                }
            }
        }
        assert(line@[i_comma2 as int] == rest@[i_comma2 - i_space]);
        assert forall|j: int| i_space <= j < i_comma2 implies line@[j] != ',' by {
            assert(rest@[j - i_space] == line@[j]);
        }
    }
    if i_comma1 < 2 || i_space <= i_comma1 || i_comma2 - i_space < 3 {
        return None;
    }
    let px_text = copy_range(line, 2, i_comma1);
    let py_text = copy_range(line, i_comma1 + 1, i_space);
    let vx_text = copy_range(line, i_space + 3, i_comma2);
    let vy_text = copy_range(line, i_comma2 + 1, line.len());
    assert(vy_text@ == line@.skip(i_comma2 + 1));
    let px = parse_signed(&px_text, 32767);
    let py = parse_signed(&py_text, 32767);
    let vx = parse_signed(&vx_text, 32767);
    let vy = parse_signed(&vy_text, 32767);
    match (px, py, vx, vy) {
        (Some(px), Some(py), Some(vx), Some(vy)) => {
            if px < 0 || py < 0 || vx + (SPACE_WIDTH as i64) < 0 || vx + (SPACE_WIDTH as i64) > 32767
                || vy + (SPACE_HEIGHT as i64) < 0 || vy + (SPACE_HEIGHT as i64) > 32767 {
                return None;
            }
            assert(writes_robot(line@, i_comma1 as int, i_space as int, i_comma2 as int));
            Some(
                Robot {
                    location: Point { x: px as i16, y: py as i16 },
                    vector: Point {
                        x: (vx + (SPACE_WIDTH as i64)) as i16,
                        y: (vy + (SPACE_HEIGHT as i64)) as i16,
                    },
                },
            )
        },
        _ => {
            proof {
                if exists|comma1: int, space: int, comma2: int|
                    writes_robot(line@, comma1, space, comma2) {
                    let (comma1, space, comma2) = choose|comma1: int, space: int, comma2: int|
                        writes_robot(line@, comma1, space, comma2);
                    assert(is_place(line@.subrange(2, comma1)));
                    assert(is_speed(line@.subrange(space + 3, comma2), SPACE_WIDTH as int));
                }
            }
            None
        },
    }
}

/// Whether a line writes a robot.
pub open spec fn is_robot(line: Seq<char>) -> bool {
    exists|comma1: int, space: int, comma2: int| writes_robot(line, comma1, space, comma2)
}

/// The robots that the lines of the text write; nothing where a line writes
/// none.
pub fn parse(input: &str) -> (result: Option<Vec<Robot>>)
    ensures
        result is Some <==> forall|i: int|
            0 <= i < lines_of(input@).len() ==> is_robot(#[trigger] lines_of(input@)[i]),
        result matches Some(robots) ==> are_robots_of(lines_of(input@), robots@),
{
    let rows = lines(input);
    let ghost all = views(rows@);
    let mut robots: Vec<Robot> = Vec::new();
    let mut i: usize = 0;
    while i < rows.len()
        invariant
            i <= rows.len(),
            all == views(rows@),
            all == lines_of(input@),
            robots.len() == i,
            all_wf(robots@),
            forall|j: int| 0 <= j < i ==> is_robot(#[trigger] all[j]),
            forall|j: int| 0 <= j < i ==> is_robot_of(all[j], #[trigger] robots[j]),
        decreases rows.len() - i,
    {
        assert(all[i as int] == rows[i as int]@);
        match parse_robot(&rows[i]) {
            None => {
                assert(!is_robot(all[i as int]));
                return None;
            },
            Some(robot) => {
                robots.push(robot);
            },
        }
        i += 1;
    }
    Some(robots)
}

/// A line writes one robot.
pub proof fn lemma_one_robot(line: Seq<char>, one: Robot, other: Robot)
    requires
        is_robot_of(line, one),
        is_robot_of(line, other),
    ensures
        one == other,
{
    let (a1, s1, b1) = choose|comma1: int, space: int, comma2: int|
        {
            &&& writes_robot(line, comma1, space, comma2)
            &&& one.location.x == signed_value(line.subrange(2, comma1))
            &&& one.location.y == signed_value(line.subrange(comma1 + 1, space))
            &&& one.vector.x == signed_value(line.subrange(space + 3, comma2)) + SPACE_WIDTH
            &&& one.vector.y == signed_value(line.skip(comma2 + 1)) + SPACE_HEIGHT
        };
    let (a2, s2, b2) = choose|comma1: int, space: int, comma2: int|
        {
            &&& writes_robot(line, comma1, space, comma2)
            &&& other.location.x == signed_value(line.subrange(2, comma1))
            &&& other.location.y == signed_value(line.subrange(comma1 + 1, space))
            &&& other.vector.x == signed_value(line.subrange(space + 3, comma2)) + SPACE_WIDTH
            &&& other.vector.y == signed_value(line.skip(comma2 + 1)) + SPACE_HEIGHT
        };
    assert(a1 == a2) by {
        if a1 < a2 {
            assert(line[a1] != ',');
        } else if a2 < a1 {
            assert(line[a2] != ',');
        }
    }
    assert(s1 == s2) by {
        if s1 < s2 {
            assert(line[s1] != ' ');
        } else if s2 < s1 {
            assert(line[s2] != ' ');
        }
    }
    assert(b1 == b2) by {
        if b1 < b2 {
            assert(line[b1] != ',');
        } else if b2 < b1 {
            assert(line[b2] != ',');
        }
    }
}

/// Whether the robots have an answer: there are no more than 65535 of
/// them, the numbers of robots in the quadrants after 100 seconds can be
/// multiplied in 32 bits one after the other, and there is a second, from
/// the first to the 65535th, at which no two robots stand on the same tile.
pub open spec fn have_answer(robots: Seq<Robot>) -> bool {
    let n = robots.len();
    &&& n <= 65535
    &&& in_quadrant(robots, n, 0, 100) * in_quadrant(robots, n, 1, 100) <= u32::MAX
    &&& in_quadrant(robots, n, 0, 100) * in_quadrant(robots, n, 1, 100) * in_quadrant(robots, n, 2, 100)
        <= u32::MAX
    &&& safety_factor(robots, 100) <= u32::MAX
    &&& exists|second: nat| 1 <= second <= 65535 && apart(#[trigger] all_moved(robots, second))
}

/// The safety factor after 100 seconds, the first second at which no two
/// robots are on the same tile, and the robots as they stand then; nothing
/// where a line writes no robot, or where the robots have no answer.
pub fn solve(input: &str) -> (result: Option<(u32, u16, Vec<Robot>)>)
    ensures
        result is Some <==> exists|robots: Seq<Robot>| #[trigger]
            are_robots_of(lines_of(input@), robots) && have_answer(robots),
        result matches Some(found) ==> exists|robots: Seq<Robot>|
            {
                &&& #[trigger] are_robots_of(lines_of(input@), robots)
                &&& found.0 == safety_factor(robots, 100)
                &&& found.1 >= 1
                &&& found.2@ == all_moved(robots, found.1 as nat)
                &&& apart(found.2@)
                &&& forall|earlier: nat|
                    1 <= earlier < found.1 ==> !apart(#[trigger] all_moved(robots, earlier))
            },
{
    let ghost all = lines_of(input@);
    let mut robots = match parse(input) {
        None => {
            proof {
                assert forall|others: Seq<Robot>| !#[trigger] are_robots_of(all, others) by {
                    if are_robots_of(all, others) {
                        assert forall|i: int| 0 <= i < all.len() implies is_robot(#[trigger] all[i]) by {
                            assert(is_robot_of(all[i], others[i]));
                        }
                    }
                }
            }
            return None;
        },
        Some(robots) => robots,
    };
    let ghost first = robots@;
    proof {
        assert forall|others: Seq<Robot>| #[trigger] are_robots_of(all, others) implies others
            == first by {
            assert forall|i: int| 0 <= i < all.len() implies others[i] == first[i] by {
                lemma_one_robot(all[i], others[i], first[i]);
            }
            assert(others =~= first);
        }
    }
    let part1 = match calculate_safety_factor(&robots, 100) {
        None => {
            return None;
        },
        Some(factor) => factor,
    };
    match find_easter_egg(&mut robots) {
        None => None,
        Some(part2) => {
            let result = Some((part1, part2, robots));
            proof {
                assert(are_robots_of(all, first));
                assert(result->Some_0.0 == safety_factor(first, 100));
                assert(result->Some_0.2@ == all_moved(first, result->Some_0.1 as nat));
                assert(apart(all_moved(first, part2 as nat)));
                assert(have_answer(first));
            }
            result
        },
    }
}

} // verus!
