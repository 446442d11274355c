//! A warehouse in which a robot pushes boxes: what it pushes moves with
//! it, unless a wall stands in the way. In the second warehouse everything
//! but the robot is twice as wide.

use crate::text::{lines, lines_of, views};
use vstd::prelude::*;

verus! {

/// What stands on a place of the warehouse.
#[derive(Clone, Copy, Debug, PartialEq, Eq)]
pub enum Object {
    Wall,
    /// A box, with its width; it stands on the place of its left end.
    Box(u8),
}

/// A direction in which the robot moves.
#[derive(Clone, Copy, Debug, PartialEq, Eq)]
pub enum Direction {
    Up,
    Down,
    Right,
    Left,
}

/// A place of the warehouse. The first row and the first column have the
/// number 1.
#[derive(Clone, Copy, Debug, PartialEq, Eq)]
pub struct Point {
    pub x: u8,
    pub y: u8,
}

/// Said of a move that would lead beyond the places that can be numbered.
#[derive(Clone, Copy, Debug, PartialEq, Eq)]
pub struct Beyond;

/// A warehouse: for each place, row by row, what stands on it, and its
/// size.
#[derive(Debug)]
pub struct Warehouse {
    pub map: Vec<Option<Object>>,
    pub width: u8,
    pub height: u8,
}

/// How many places there are.
pub const PLACES: usize = 65536;

/// The place of a point in a list of all places.
pub open spec fn index_of(p: Point) -> int {
    p.y * 256 + p.x
}

/// The point one step from a point in a direction; nothing where the step
/// leads beyond the places that can be numbered.
pub open spec fn step(p: Point, d: Direction) -> Option<Point> {
    match d {
        Direction::Up => if p.y > 0 {
            Some(Point { x: p.x, y: (p.y - 1) as u8 })
        } else {
            None
        },
        Direction::Down => if p.y < 255 {
            Some(Point { x: p.x, y: (p.y + 1) as u8 })
        } else {
            None
        },
        Direction::Left => if p.x > 0 {
            Some(Point { x: (p.x - 1) as u8, y: p.y })
        } else {
            None
        },
        Direction::Right => if p.x < 255 {
            Some(Point { x: (p.x + 1) as u8, y: p.y })
        } else {
            None
        },
    }
}

/// How many steps in a direction are left from a point.
pub open spec fn room(p: Point, d: Direction) -> nat {
    match d {
        Direction::Up => p.y as nat,
        Direction::Down => (255 - p.y) as nat,
        Direction::Left => p.x as nat,
        Direction::Right => (255 - p.x) as nat,
    }
}

/// What a push does: where what was pushed moves to, or nothing where a
/// wall stands in the way, and the places after it.
pub struct Pushed {
    pub result: Result<Option<Point>, Beyond>,
    pub map: Seq<Option<Object>>,
}

/// The places with what stands on `from` moved to `to`, where something
/// stands there.
pub open spec fn moved(map: Seq<Option<Object>>, from: Point, to: Point) -> Seq<Option<Object>> {
    match map[index_of(from)] {
        Some(object) => map.update(index_of(from), None).update(index_of(to), Some(object)),
        None => map,
    }
}

/// What a push from a place in a direction does: the place next to it is
/// free, or holds a box that can itself be pushed, and then moves on.
pub open spec fn push(map: Seq<Option<Object>>, location: Point, d: Direction) -> Pushed
    decreases room(location, d),
{
    match step(location, d) {
        None => Pushed { result: Err(Beyond), map },
        Some(next) => match map[index_of(next)] {
            Some(Object::Wall) => Pushed { result: Ok(None), map },
            Some(Object::Box(_)) => {
                let further = push(map, next, d);
                match further.result {
                    Ok(Some(free)) => Pushed { result: Ok(Some(next)), map: moved(further.map, next, free) },
                    _ => Pushed { result: further.result, map },
                }
            },
            None => Pushed { result: Ok(Some(next)), map },
        },
    }
}

impl Point {
    pub fn new(x: u8, y: u8) -> (p: Point)
        ensures
            p.x == x && p.y == y,
    {
        Point { x, y }
    }

    /// The point one step in a direction.
    pub fn get(&self, rhs: &Direction) -> (p: Point)
        requires
            step(*self, *rhs) is Some,
        ensures
            Some(p) == step(*self, *rhs),
    {
        match rhs {
            Direction::Up => Point::new(self.x, self.y - 1),
            Direction::Down => Point::new(self.x, self.y + 1),
            Direction::Left => Point::new(self.x - 1, self.y),
            Direction::Right => Point::new(self.x + 1, self.y),
        }
    }

    /// The point one step in a direction, where there is one.
    pub fn try_get(&self, rhs: &Direction) -> (p: Option<Point>)
        ensures
            p == step(*self, *rhs),
    {
        let fits = match rhs {
            Direction::Up => self.y > 0,
            Direction::Down => self.y < 255,
            Direction::Left => self.x > 0,
            Direction::Right => self.x < 255,
        };
        if fits {
            Some(self.get(rhs))
        } else {
            None
        }
    }

    pub fn move_to(&mut self, location: &Point)
        ensures
            *final(self) == *location,
    {
        self.x = location.x;
        self.y = location.y;
    }

    /// The number of the point: a hundred times its row and its column,
    /// both counted from nought.
    pub fn gps(&self) -> (number: u32)
        requires
            self.x >= 1,
            self.y >= 1,
        ensures
            number == (self.y - 1) * 100 + (self.x - 1),
    {
        let x = self.x as u32 - 1;
        let y = self.y as u32 - 1;
        y * 100 + x
    }
}

/// What stands on a place.
fn at(map: &Vec<Option<Object>>, p: &Point) -> (found: Option<Object>)
    requires
        map.len() == PLACES,
    ensures
        found == map@[index_of(*p)],
{
    map[p.y as usize * 256 + p.x as usize]
}

/// Moves what stands on `from` to `to`.
fn move_object(map: &mut Vec<Option<Object>>, from: &Point, to: &Point)
    requires
        old(map).len() == PLACES,
    ensures
        final(map).len() == PLACES,
        final(map)@ == moved(old(map)@, *from, *to),
{
    let source = from.y as usize * 256 + from.x as usize;
    let target = to.y as usize * 256 + to.x as usize;
    if let Some(object) = map[source] {
        map.set(source, None);
        map.set(target, Some(object));
    }
}

/// Pushes from a place in a direction: says where what was pushed moves
/// to, or nothing where a wall stands in the way, and moves the boxes that
/// give way.
pub fn try_move(location: &Point, warehouse_map: &mut Vec<Option<Object>>, direction: &Direction) -> (result:
    Result<Option<Point>, Beyond>)
    requires
        old(warehouse_map).len() == PLACES,
    ensures
        final(warehouse_map).len() == PLACES,
        result == push(old(warehouse_map)@, *location, *direction).result,
        final(warehouse_map)@ == push(old(warehouse_map)@, *location, *direction).map,
    decreases room(*location, *direction),
{
    let next_location = match location.try_get(direction) {
        None => {
            return Err(Beyond);
        },
        Some(next) => next,
    };
    match at(warehouse_map, &next_location) {
        Some(Object::Wall) => Ok(None),
        Some(Object::Box(_)) => {
            match try_move(&next_location, warehouse_map, direction) {
                Ok(Some(moved_box_location)) => {
                    move_object(warehouse_map, &next_location, &moved_box_location);
                    Ok(Some(next_location))
                },
                Ok(None) => Ok(None),
                Err(beyond) => Err(beyond),
            }
        },
        None => Ok(Some(next_location)),
    }
}

/// Where the robot is and what the places hold after the first `n` moves;
/// nothing where a move led beyond the places that can be numbered.
pub open spec fn after_moves(
    map: Seq<Option<Object>>,
    robot: Point,
    moves: Seq<Direction>,
    n: nat,
) -> Option<(Point, Seq<Option<Object>>)>
    decreases n,
{
    if n == 0 {
        Some((robot, map))
    } else {
        match after_moves(map, robot, moves, (n - 1) as nat) {
            None => None,
            Some(before) => {
                let pushed = push(before.1, before.0, moves[n - 1]);
                match pushed.result {
                    Err(_) => None,
                    Ok(Some(destination)) => Some((destination, pushed.map)),
                    Ok(None) => Some((before.0, pushed.map)),
                }
            },
        }
    }
}

/// The sum of the numbers of the boxes on the first `n` places; nothing
/// where a box stands in the row or the column with the number nought.
pub open spec fn gps_sum(map: Seq<Option<Object>>, n: nat) -> Option<nat>
    decreases n,
{
    if n == 0 {
        Some(0)
    } else {
        match gps_sum(map, (n - 1) as nat) {
            None => None,
            Some(sum) => match map[n - 1] {
                Some(Object::Box(_)) => {
                    let x = (n - 1) % 256;
                    let y = (n - 1) / 256;
                    if x >= 1 && y >= 1 {
                        Some((sum + (y - 1) * 100 + (x - 1)) as nat)
                    } else {
                        None
                    }
                },
                _ => Some(sum),
            },
        }
    }
}

impl Warehouse {
    /// Whether the warehouse says of every place what stands on it.
    pub open spec fn wf(&self) -> bool {
        self.map.len() == PLACES
    }

    pub fn new(map: Vec<Option<Object>>, width: u8, height: u8) -> (warehouse: Warehouse)
        ensures
            warehouse.map == map,
            warehouse.width == width,
            warehouse.height == height,
    {
        Warehouse { map, width, height }
    }

    /// The sum of the numbers of the boxes; nothing where a box stands in
    /// the row or the column with the number nought.
    pub fn calculate_gps_sum(&self) -> (result: Option<u32>)
        requires
            self.wf(),
        ensures
            result is Some <==> gps_sum(self.map@, PLACES as nat) is Some,
            result matches Some(sum) ==> Some(sum as nat) == gps_sum(self.map@, PLACES as nat),
    {
        let mut sum: u32 = 0;
        let mut n: usize = 0;
        while n < PLACES
            invariant
                n <= PLACES,
                self.wf(),
                gps_sum(self.map@, n as nat) == Some(sum as nat),
                sum <= n * 25654,
            decreases PLACES - n,
        {
            if let Some(Object::Box(_)) = self.map[n] {
                let p = Point { x: (n % 256) as u8, y: (n / 256) as u8 };
                if p.x == 0 || p.y == 0 {
                    proof {
                        lemma_gps_sum_stays_none(self.map@, (n + 1) as nat, PLACES as nat);
                    }
                    return None;
                }
                sum = sum + p.gps();
            }
            n += 1;
        }
        Some(sum)
    }
}

/// A sum that cannot be told for some places cannot be told for more.
proof fn lemma_gps_sum_stays_none(map: Seq<Option<Object>>, n: nat, m: nat)
    requires
        n <= m,
        gps_sum(map, n) is None,
    ensures
        gps_sum(map, m) is None,
    decreases m,
{
    if n < m {
        lemma_gps_sum_stays_none(map, n, (m - 1) as nat);
    }
}

/// Lets the robot make the moves, each as far as it can, and tells the sum
/// of the numbers of the boxes after them; nothing where a move leads
/// beyond the places that can be numbered, or where a box ends in the row
/// or the column with the number nought.
pub fn execute_robot_movements(robot: &mut Point, warehouse: &mut Warehouse, moves: &Vec<Direction>) -> (result:
    Option<u32>)
    requires
        old(warehouse).wf(),
    ensures
        final(warehouse).wf(),
        match after_moves(old(warehouse).map@, *old(robot), moves@, moves@.len()) {
            None => result is None,
            Some(end) => *final(robot) == end.0 && final(warehouse).map@ == end.1 && match gps_sum(
                end.1,
                PLACES as nat,
            ) {
                None => result is None,
                Some(sum) => result == Some(sum as u32) && sum <= u32::MAX,
            },
        },
{
    let mut n: usize = 0;
    while n < moves.len()
        invariant
            n <= moves.len(),
            warehouse.wf(),
            after_moves(old(warehouse).map@, *old(robot), moves@, n as nat) == Some(
                (*robot, warehouse.map@),
            ),
        decreases moves.len() - n,
    {
        match try_move(robot, &mut warehouse.map, &moves[n]) {
            Err(_) => {
                proof {
                    lemma_moves_stay_none(
                        old(warehouse).map@,
                        *old(robot),
                        moves@,
                        (n + 1) as nat,
                        moves@.len(),
                    );
                }
                return None;
            },
            Ok(Some(destination)) => {
                robot.move_to(&destination);
            },
            Ok(None) => {},
        }
        n += 1;
    }
    warehouse.calculate_gps_sum()
}

/// Moves that led beyond the places lead there whatever follows.
proof fn lemma_moves_stay_none(
    map: Seq<Option<Object>>,
    robot: Point,
    moves: Seq<Direction>,
    n: nat,
    m: nat,
)
    requires
        n <= m,
        after_moves(map, robot, moves, n) is None,
    ensures
        after_moves(map, robot, moves, m) is None,
    decreases m,
{
    if n < m {
        lemma_moves_stay_none(map, robot, moves, n, (m - 1) as nat);
    }
}

/// What a push to the left does in the wide warehouse, where a box stands
/// on the place of its left end and on the place after it: the place next
/// to the robot is no wall, and the box that ends there can itself be
/// pushed, and then moves on.
pub open spec fn push_left(map: Seq<Option<Object>>, location: Point) -> Pushed
    decreases location.x,
{
    match step(location, Direction::Left) {
        None => Pushed { result: Err(Beyond), map },
        Some(next) => if map[index_of(next)] == Some(Object::Wall) {
            Pushed { result: Ok(None), map }
        } else {
            match step(next, Direction::Left) {
                None => Pushed { result: Err(Beyond), map },
                Some(check) => if map[index_of(check)] matches Some(Object::Box(_)) {
                    let further = push_left(map, check);
                    match further.result {
                        Ok(Some(free)) => Pushed {
                            result: Ok(Some(next)),
                            map: moved(further.map, check, free),
                        },
                        _ => Pushed { result: further.result, map },
                    }
                } else {
                    Pushed { result: Ok(Some(next)), map }
                },
            }
        },
    }
}

/// What a push to the right by something of the width `my_width` does in
/// the wide warehouse: the place after it is free, or holds a box that can
/// itself be pushed, and then moves on. A box without a width cannot be
/// pushed.
pub open spec fn push_right(map: Seq<Option<Object>>, location: Point, my_width: u8) -> Pushed
    decreases 255 - location.x, if my_width == 0 {
        1nat
    } else {
        0nat
    },
{
    match step(location, Direction::Right) {
        None => Pushed { result: Err(Beyond), map },
        Some(next) => if location.x + my_width > 255 {
            Pushed { result: Err(Beyond), map }
        } else {
            let check = Point { x: (location.x + my_width) as u8, y: location.y };
            match map[index_of(check)] {
                Some(Object::Wall) => Pushed { result: Ok(None), map },
                Some(Object::Box(box_width)) => if box_width == 0 {
                    Pushed { result: Err(Beyond), map }
                } else {
                    let further = push_right(map, check, box_width);
                    match further.result {
                        Ok(Some(free)) => Pushed {
                            result: Ok(Some(next)),
                            map: moved(further.map, check, free),
                        },
                        _ => Pushed { result: further.result, map },
                    }
                },
                None => Pushed { result: Ok(Some(next)), map },
            }
        },
    }
}

/// Pushes to the left in the wide warehouse.
pub fn try_move_left_wide(location: &Point, warehouse_map: &mut Vec<Option<Object>>, direction: &Direction) -> (result:
    Result<Option<Point>, Beyond>)
    requires
        old(warehouse_map).len() == PLACES,
        *direction == Direction::Left,
    ensures
        final(warehouse_map).len() == PLACES,
        result == push_left(old(warehouse_map)@, *location).result,
        final(warehouse_map)@ == push_left(old(warehouse_map)@, *location).map,
    decreases location.x,
{
    let next_location = match location.try_get(direction) {
        None => {
            return Err(Beyond);
        },
        Some(next) => next,
    };
    if let Some(Object::Wall) = at(warehouse_map, &next_location) {
        return Ok(None);
    }
    let check_box_location = match next_location.try_get(direction) {
        None => {
            return Err(Beyond);
        },
        Some(check) => check,
    };
    if let Some(Object::Box(_)) = at(warehouse_map, &check_box_location) {
        match try_move_left_wide(&check_box_location, warehouse_map, direction) {
            Ok(Some(moved_box_location)) => {
                move_object(warehouse_map, &check_box_location, &moved_box_location);
            },
            Ok(None) => {
                return Ok(None);
            },
            Err(beyond) => {
                return Err(beyond);
            },
        }
    }
    Ok(Some(next_location))
}

/// Pushes to the right in the wide warehouse, by something of the width
/// `my_width`.
pub fn try_move_right_wide(
    location: &Point,
    my_width: u8,
    warehouse_map: &mut Vec<Option<Object>>,
    direction: &Direction,
) -> (result: Result<Option<Point>, Beyond>)
    requires
        old(warehouse_map).len() == PLACES,
        *direction == Direction::Right,
    ensures
        final(warehouse_map).len() == PLACES,
        result == push_right(old(warehouse_map)@, *location, my_width).result,
        final(warehouse_map)@ == push_right(old(warehouse_map)@, *location, my_width).map,
    decreases 255 - location.x, if my_width == 0 {
        1nat
    } else {
        0nat
    },
{
    let next_location = match location.try_get(direction) {
        None => {
            return Err(Beyond);
        },
        Some(next) => next,
    };
    if location.x > 255 - my_width {
        return Err(Beyond);
    }
    let check_location = Point::new(location.x + my_width, location.y);
    match at(warehouse_map, &check_location) {
        Some(Object::Wall) => Ok(None),
        Some(Object::Box(box_width)) => {
            if box_width == 0 {
                return Err(Beyond);
            }
            match try_move_right_wide(&check_location, box_width, warehouse_map, direction) {
                Ok(Some(moved_box_location)) => {
                    move_object(warehouse_map, &check_location, &moved_box_location);
                    Ok(Some(next_location))
                },
                Ok(None) => Ok(None),
                Err(beyond) => Err(beyond),
            }
        },
        None => Ok(Some(next_location)),
    }
}

/// A box that is pushed up or down: the place of its left end, and its
/// width.
pub type Load = (Point, u8);

/// What looking at the places above or below finds: the boxes that are
/// pushed, nothing where a wall stands in the way, or that a place lies
/// beyond those that can be numbered.
pub type Found = Result<Option<Seq<Load>>, Beyond>;

/// What looking at one place above or below adds to the boxes that are
/// pushed: the box that stands on it, or the box that stands on the place
/// to its left and reaches over it.
pub open spec fn look_at(map: Seq<Option<Object>>, boxes: Seq<Load>, x: int, y: int) -> Found {
    if x > 255 {
        Err(Beyond)
    } else {
        match map[y * 256 + x] {
            Some(Object::Wall) => Ok(None),
            Some(Object::Box(width)) => Ok(Some(boxes.push((Point { x: x as u8, y: y as u8 }, width)))),
            None => if x == 0 {
                Err(Beyond)
            } else {
                match map[y * 256 + x - 1] {
                    Some(Object::Box(width)) => Ok(
                        Some(boxes.push((Point { x: (x - 1) as u8, y: y as u8 }, width))),
                    ),
                    _ => Ok(Some(boxes)),
                }
            },
        }
    }
}

/// What looking at the first `n` places above or below a load adds to
/// what was found before.
pub open spec fn look_over(map: Seq<Option<Object>>, before: Found, load: Load, off: int, n: nat) -> Found
    decreases n,
{
    if n == 0 {
        before
    } else {
        match look_over(map, before, load, off, (n - 1) as nat) {
            Ok(Some(boxes)) => look_at(map, boxes, load.0.x + n - 1, load.0.y + off),
            other => other,
        }
    }
}

/// What looking at the places above or below the first `n` loads finds,
/// from the left to the right of each load in turn.
pub open spec fn look(map: Seq<Option<Object>>, locations: Seq<Load>, off: int, n: nat) -> Found
    decreases n,
{
    if n == 0 {
        Ok(Some(Seq::empty()))
    } else {
        look_over(
            map,
            look(map, locations, off, (n - 1) as nat),
            locations[n - 1],
            off,
            locations[n - 1].1 as nat,
        )
    }
}

/// The places with each of the first `n` boxes moved to its new place, one
/// after the other.
pub open spec fn all_moved(
    map: Seq<Option<Object>>,
    boxes: Seq<Load>,
    places: Seq<Point>,
    n: nat,
) -> Seq<Option<Object>>
    decreases n,
{
    if n == 0 {
        map
    } else {
        moved(all_moved(map, boxes, places, (n - 1) as nat), boxes[n - 1].0, places[n - 1])
    }
}

/// What a push up or down does in the wide warehouse, with a result for
/// each of the loads that are pushed.
pub struct PushedRows {
    pub result: Result<Option<Seq<Point>>, Beyond>,
    pub map: Seq<Option<Object>>,
}

/// Whether every load stands in a row from which there is a step up, or
/// down.
pub open spec fn have_room(locations: Seq<Load>, off: int) -> bool {
    forall|i: int| 0 <= i < locations.len() ==> 0 <= (#[trigger] locations[i]).0.y + off <= 255
}

/// The places one row up or down from the loads.
pub open spec fn shifted(locations: Seq<Load>, off: int) -> Seq<Point> {
    Seq::new(
        locations.len(),
        |i: int| Point { x: locations[i].0.x, y: (locations[i].0.y + off) as u8 },
    )
}

/// What a push of the loads up or down does, `off` being -1 or 1: the
/// places above or below are free, or hold boxes that can themselves be
/// pushed, all of them, and then move on. No more than `rounds` rows of
/// boxes are pushed.
pub open spec fn push_rows(map: Seq<Option<Object>>, locations: Seq<Load>, off: int, rounds: nat) -> PushedRows
    decreases rounds,
{
    if rounds == 0 || !have_room(locations, off) {
        PushedRows { result: Err(Beyond), map }
    } else {
        match look(map, locations, off, locations.len()) {
            Err(beyond) => PushedRows { result: Err(beyond), map },
            Ok(None) => PushedRows { result: Ok(None), map },
            Ok(Some(boxes)) => if boxes.len() == 0 {
                PushedRows { result: Ok(Some(shifted(locations, off))), map }
            } else {
                let further = push_rows(map, boxes, off, (rounds - 1) as nat);
                match further.result {
                    Ok(Some(places)) => PushedRows {
                        result: Ok(Some(shifted(locations, off))),
                        map: all_moved(further.map, boxes, places, boxes.len()),
                    },
                    other => PushedRows { result: other, map },
                }
            },
        }
    }
}

/// How far up or down a direction leads: a row up, a row down, or not at
/// all.
pub open spec fn rows_off(d: Direction) -> int {
    match d {
        Direction::Up => -1,
        Direction::Down => 1,
        _ => 0,
    }
}

/// Once something lies beyond or a wall is in the way, looking on finds
/// the same.
proof fn lemma_look_stops(map: Seq<Option<Object>>, before: Found, load: Load, off: int, n: nat)
    requires
        !(before matches Ok(Some(_))),
    ensures
        look_over(map, before, load, off, n) == before,
    decreases n,
{
    if n > 0 {
        lemma_look_stops(map, before, load, off, (n - 1) as nat);
    }
}

/// Once something lies beyond or a wall is in the way, looking at more
/// loads finds the same.
proof fn lemma_look_stays(map: Seq<Option<Object>>, locations: Seq<Load>, off: int, n: nat, m: nat)
    requires
        n <= m,
        !(look(map, locations, off, n) matches Ok(Some(_))),
    ensures
        look(map, locations, off, m) == look(map, locations, off, n),
    decreases m,
{
    if n < m {
        lemma_look_stays(map, locations, off, n, (m - 1) as nat);
        lemma_look_stops(
            map,
            look(map, locations, off, (m - 1) as nat),
            locations[m - 1],
            off,
            locations[m - 1].1 as nat,
        );
    }
}

/// Pushes the loads up or down in the wide warehouse, no more than
/// `rounds` rows of boxes.
fn push_up_or_down(
    locations: &Vec<Load>,
    warehouse_map: &mut Vec<Option<Object>>,
    direction: &Direction,
    rounds: usize,
) -> (result: Result<Option<Vec<Point>>, Beyond>)
    requires
        old(warehouse_map).len() == PLACES,
        *direction == Direction::Up || *direction == Direction::Down,
    ensures
        final(warehouse_map).len() == PLACES,
        final(warehouse_map)@ == push_rows(
            old(warehouse_map)@,
            locations@,
            rows_off(*direction),
            rounds as nat,
        ).map,
        match push_rows(old(warehouse_map)@, locations@, rows_off(*direction), rounds as nat).result {
            Ok(Some(places)) => result matches Ok(Some(found)) && found@ == places,
            Ok(None) => result == Ok::<Option<Vec<Point>>, Beyond>(None),
            Err(_) => result is Err,
        },
    decreases rounds,
{
    let ghost off = rows_off(*direction);
    let ghost first = warehouse_map@;
    if rounds == 0 {
        return Err(Beyond);
    }
    let up = match direction {
        Direction::Up => true,
        _ => false,
    };
    let mut i: usize = 0;
    while i < locations.len()
        invariant
            i <= locations.len(),
            rounds > 0,
            warehouse_map.len() == PLACES,
            warehouse_map@ == first,
            first == old(warehouse_map)@,
            off == rows_off(*direction),
            up == (*direction == Direction::Up),
            *direction == Direction::Up || *direction == Direction::Down,
            forall|j: int| 0 <= j < i ==> 0 <= (#[trigger] locations[j]).0.y + off <= 255,
        decreases locations.len() - i,
    {
        let y = locations[i].0.y;
        if (up && y == 0) || (!up && y == 255) {
            assert(!(0 <= locations[i as int].0.y + off <= 255));
            assert(!have_room(locations@, off));
            return Err(Beyond);
        }
        i += 1;
    }
    let mut boxes: Vec<Load> = Vec::new();
    let mut i: usize = 0;
    while i < locations.len()
        invariant
            i <= locations.len(),
            rounds > 0,
            warehouse_map.len() == PLACES,
            warehouse_map@ == first,
            first == old(warehouse_map)@,
            off == rows_off(*direction),
            up == (*direction == Direction::Up),
            *direction == Direction::Up || *direction == Direction::Down,
            have_room(locations@, off),
            look(first, locations@, off, i as nat) == Ok::<Option<Seq<Load>>, Beyond>(Some(boxes@)),
        decreases locations.len() - i,
    {
        let (point, width) = locations[i];
        assert(0 <= locations[i as int].0.y + off <= 255);
        let y: u8 = if up {
            point.y - 1
        } else {
            point.y + 1
        };
        let ghost before: Found = Ok(Some(boxes@));
        let mut offset_x: u8 = 0;
        while offset_x < width
            invariant
                offset_x <= width,
                i < locations.len(),
                rounds > 0,
                warehouse_map.len() == PLACES,
                warehouse_map@ == first,
                first == old(warehouse_map)@,
                off == rows_off(*direction),
                have_room(locations@, off),
                before == look(first, locations@, off, i as nat),
                y == point.y + off,
                (point, width) == locations[i as int],
                look_over(first, before, (point, width), off, offset_x as nat) == Ok::<
                    Option<Seq<Load>>,
                    Beyond,
                >(Some(boxes@)),
            decreases width - offset_x,
        {
            let ghost so_far = boxes@;
            let stop: Option<Result<Option<Vec<Point>>, Beyond>> = if point.x > 255 - offset_x {
                Some(Err(Beyond))
            } else {
                let check_location = Point::new(point.x + offset_x, y);
                match at(warehouse_map, &check_location) {
                    Some(Object::Wall) => Some(Ok(None)),
                    Some(Object::Box(box_width)) => {
                        boxes.push((check_location, box_width));
                        None
                    },
                    None => {
                        if check_location.x == 0 {
                            Some(Err(Beyond))
                        } else {
                            let check_for_box_location = Point::new(check_location.x - 1, check_location.y);
                            if let Some(Object::Box(box_width)) = at(warehouse_map, &check_for_box_location) {
                                boxes.push((check_for_box_location, box_width));
                            }
                            None
                        }
                    },
                }
            };
            if let Some(result) = stop {
                proof {
                    let found = look_at(first, so_far, point.x + offset_x, point.y + off);
                    assert(look_over(first, before, (point, width), off, (offset_x + 1) as nat) == found);
                    lemma_look_stops_within(
                        first,
                        before,
                        (point, width),
                        off,
                        (offset_x + 1) as nat,
                        width as nat,
                    );
                    lemma_look_stays(first, locations@, off, (i + 1) as nat, locations@.len());
                    assert(look(first, locations@, off, locations@.len()) == found);
                    assert(found is Err ==> result is Err);
                    assert(found == Ok::<Option<Seq<Load>>, Beyond>(None) ==> result == Ok::<
                        Option<Vec<Point>>,
                        Beyond,
                    >(None));
                }
                return result;
            }
            offset_x += 1;
        }
        i += 1;
    }
    if boxes.len() > 0 {
        let new_locations = match push_up_or_down(&boxes, warehouse_map, direction, rounds - 1) {
            Ok(Some(places)) => places,
            Ok(None) => {
                return Ok(None);
            },
            Err(beyond) => {
                return Err(beyond);
            },
        };
        let ghost pushed_map = warehouse_map@;
        let mut n: usize = 0;
        while n < boxes.len()
            invariant
                n <= boxes.len(),
                new_locations.len() == boxes.len(),
                warehouse_map.len() == PLACES,
                warehouse_map@ == all_moved(pushed_map, boxes@, new_locations@, n as nat),
            decreases boxes.len() - n,
        {
            let old_location = boxes[n].0;
            let new_location = new_locations[n];
            move_object(warehouse_map, &old_location, &new_location);
            n += 1;
        }
    }
    let mut found: Vec<Point> = Vec::new();
    let mut i: usize = 0;
    while i < locations.len()
        invariant
            i <= locations.len(),
            off == rows_off(*direction),
            up == (*direction == Direction::Up),
            *direction == Direction::Up || *direction == Direction::Down,
            have_room(locations@, off),
            found.len() == i,
            forall|j: int| 0 <= j < i ==> #[trigger] found[j] == shifted(locations@, off)[j],
        decreases locations.len() - i,
    {
        let point = locations[i].0;
        assert(0 <= locations[i as int].0.y + off <= 255);
        found.push(point.get(direction));
        i += 1;
    }
    assert(found@ =~= shifted(locations@, off));
    Ok(Some(found))
}

/// Once something lies beyond or a wall is in the way above or below a
/// load, looking at more of its places finds the same.
proof fn lemma_look_stops_within(
    map: Seq<Option<Object>>,
    before: Found,
    load: Load,
    off: int,
    n: nat,
    m: nat,
)
    requires
        n <= m,
        !(look_over(map, before, load, off, n) matches Ok(Some(_))),
    ensures
        look_over(map, before, load, off, m) == look_over(map, before, load, off, n),
    decreases m,
{
    if n < m {
        lemma_look_stops_within(map, before, load, off, n, (m - 1) as nat);
    }
}

/// Pushes the loads up or down in the wide warehouse: says where each of
/// them moves to, or nothing where a wall stands in the way of one of
/// them or of a box that they push, and moves the boxes that give way.
pub fn try_move_up_or_down_wide(
    locations: &Vec<Load>,
    warehouse_map: &mut Vec<Option<Object>>,
    direction: &Direction,
) -> (result: Result<Option<Vec<Point>>, Beyond>)
    requires
        old(warehouse_map).len() == PLACES,
        *direction == Direction::Up || *direction == Direction::Down,
    ensures
        final(warehouse_map).len() == PLACES,
        final(warehouse_map)@ == push_rows(
            old(warehouse_map)@,
            locations@,
            rows_off(*direction),
            256,
        ).map,
        match push_rows(old(warehouse_map)@, locations@, rows_off(*direction), 256).result {
            Ok(Some(places)) => result matches Ok(Some(found)) && found@ == places,
            Ok(None) => result == Ok::<Option<Vec<Point>>, Beyond>(None),
            Err(_) => result is Err,
        },
{
    push_up_or_down(locations, warehouse_map, direction, 256)
}

/// What a move of the robot does in the wide warehouse.
pub open spec fn push_wide(map: Seq<Option<Object>>, robot: Point, d: Direction) -> Pushed {
    match d {
        Direction::Left => push_left(map, robot),
        Direction::Right => push_right(map, robot, 1),
        _ => {
            let rows = push_rows(map, seq![(robot, 1u8)], rows_off(d), 256);
            Pushed {
                result: match rows.result {
                    Ok(Some(places)) => Ok(Some(places[0])),
                    Ok(None) => Ok(None),
                    Err(beyond) => Err(beyond),
                },
                map: rows.map,
            }
        },
    }
}

/// Moves the robot in the wide warehouse: says where it moves to, or
/// nothing where a wall stands in the way, and moves the boxes that give
/// way.
pub fn move_robot_on_wide_map(robot: &Point, warehouse_map: &mut Vec<Option<Object>>, direction: &Direction) -> (result:
    Result<Option<Point>, Beyond>)
    requires
        old(warehouse_map).len() == PLACES,
    ensures
        final(warehouse_map).len() == PLACES,
        result == push_wide(old(warehouse_map)@, *robot, *direction).result,
        final(warehouse_map)@ == push_wide(old(warehouse_map)@, *robot, *direction).map,
{
    match direction {
        Direction::Left => try_move_left_wide(robot, warehouse_map, direction),
        Direction::Right => try_move_right_wide(robot, 1, warehouse_map, direction),
        _ => {
            let mut loads: Vec<Load> = Vec::new();
            loads.push((Point::new(robot.x, robot.y), 1));
            assert(loads@ =~= seq![(*robot, 1u8)]);
            match try_move_up_or_down_wide(&loads, warehouse_map, direction) {
                Ok(Some(places)) => {
                    assert(places.len() == 1);
                    Ok(Some(places[0]))
                },
                Ok(None) => Ok(None),
                Err(beyond) => Err(beyond),
            }
        },
    }
}

/// Where the robot is and what the places hold after the first `n` moves
/// in the wide warehouse; nothing where a move led beyond the places that
/// can be numbered.
pub open spec fn after_wide_moves(
    map: Seq<Option<Object>>,
    robot: Point,
    moves: Seq<Direction>,
    n: nat,
) -> Option<(Point, Seq<Option<Object>>)>
    decreases n,
{
    if n == 0 {
        Some((robot, map))
    } else {
        match after_wide_moves(map, robot, moves, (n - 1) as nat) {
            None => None,
            Some(before) => {
                let pushed = push_wide(before.1, before.0, moves[n - 1]);
                match pushed.result {
                    Err(_) => None,
                    Ok(Some(destination)) => Some((destination, pushed.map)),
                    Ok(None) => Some((before.0, pushed.map)),
                }
            },
        }
    }
}

/// Moves that led beyond the places lead there whatever follows.
proof fn lemma_wide_moves_stay_none(
    map: Seq<Option<Object>>,
    robot: Point,
    moves: Seq<Direction>,
    n: nat,
    m: nat,
)
    requires
        n <= m,
        after_wide_moves(map, robot, moves, n) is None,
    ensures
        after_wide_moves(map, robot, moves, m) is None,
    decreases m,
{
    if n < m {
        lemma_wide_moves_stay_none(map, robot, moves, n, (m - 1) as nat);
    }
}

/// Lets the robot make the moves in the wide warehouse, each as far as it
/// can, and tells the sum of the numbers of the boxes after them; nothing
/// where a move leads beyond the places that can be numbered, or where a
/// box ends in the row or the column with the number nought.
pub fn execute_robot_movements_on_wide_map(
    robot: &mut Point,
    warehouse: &mut Warehouse,
    moves: &Vec<Direction>,
) -> (result: Option<u32>)
    requires
        old(warehouse).wf(),
    ensures
        final(warehouse).wf(),
        match after_wide_moves(old(warehouse).map@, *old(robot), moves@, moves@.len()) {
            None => result is None,
            Some(end) => *final(robot) == end.0 && final(warehouse).map@ == end.1 && match gps_sum(
                end.1,
                PLACES as nat,
            ) {
                None => result is None,
                Some(sum) => result == Some(sum as u32) && sum <= u32::MAX,
            },
        },
{
    let mut n: usize = 0;
    while n < moves.len()
        invariant
            n <= moves.len(),
            warehouse.wf(),
            after_wide_moves(old(warehouse).map@, *old(robot), moves@, n as nat) == Some(
                (*robot, warehouse.map@),
            ),
        decreases moves.len() - n,
    {
        match move_robot_on_wide_map(robot, &mut warehouse.map, &moves[n]) {
            Err(_) => {
                proof {
                    lemma_wide_moves_stay_none(
                        old(warehouse).map@,
                        *old(robot),
                        moves@,
                        (n + 1) as nat,
                        moves@.len(),
                    );
                }
                return None;
            },
            Ok(Some(moved_robot_location)) => {
                robot.move_to(&moved_robot_location);
            },
            Ok(None) => {},
        }
        n += 1;
    }
    warehouse.calculate_gps_sum()
}

/// How many lines stand before the first empty line.
pub open spec fn map_lines(all: Seq<Seq<char>>) -> nat
    decreases all.len(),
{
    if all.len() == 0 || all[0].len() == 0 {
        0
    } else {
        1 + map_lines(all.drop_first())
    }
}

/// What a character of the map stands for.
pub open spec fn object_of(c: char) -> Option<Object> {
    if c == '#' {
        Some(Object::Wall)
    } else if c == 'O' {
        Some(Object::Box(1))
    } else {
        None
    }
}

/// What stands on a place of the warehouse that the lines draw.
pub open spec fn drawn_at(all: Seq<Seq<char>>, x: int, y: int) -> Option<Object> {
    if 1 <= y <= map_lines(all) && 1 <= x <= all[y - 1].len() {
        object_of(all[y - 1][x - 1])
    } else {
        None
    }
}

/// What stands on a place of the wide warehouse that the lines draw: a
/// wall is two places wide, and a box stands on the first of its two.
pub open spec fn drawn_wide_at(all: Seq<Seq<char>>, x: int, y: int) -> Option<Object> {
    if 1 <= y <= map_lines(all) && 1 <= x <= 2 * all[y - 1].len() {
        let c = all[y - 1][(x - 1) / 2];
        if c == '#' {
            Some(Object::Wall)
        } else if c == 'O' && x % 2 == 1 {
            Some(Object::Box(2))
        } else {
            None
        }
    } else {
        None
    }
}

/// The place of the last `@` among the first `y` lines and the first `x`
/// characters of the line after them, each character being `wide` places
/// wide; the place (0, 0) where there is none.
pub open spec fn robot_at(all: Seq<Seq<char>>, wide: int, y: nat, x: nat) -> Point
    decreases y, x,
{
    if x > 0 {
        if all[y as int][x - 1] == '@' {
            Point { x: ((x - 1) * wide + 1) as u8, y: (y + 1) as u8 }
        } else {
            robot_at(all, wide, y, (x - 1) as nat)
        }
    } else if y > 0 {
        robot_at(all, wide, (y - 1) as nat, all[y - 1].len())
    } else {
        Point { x: 0, y: 0 }
    }
}

/// What the first line of the map with a length that is no multiple of 256
/// gives for the width, among the first `n` lines.
pub open spec fn width_of(all: Seq<Seq<char>>, wide: int, n: nat) -> u8
    decreases n,
{
    if n == 0 {
        0
    } else if width_of(all, wide, (n - 1) as nat) != 0 {
        width_of(all, wide, (n - 1) as nat)
    } else {
        ((all[n - 1].len() % 256) * wide) as u8
    }
}

/// Whether the map of the lines can be drawn: it has no more than 254
/// lines, none of more than `longest` characters.
pub open spec fn can_draw(all: Seq<Seq<char>>, longest: int) -> bool {
    map_lines(all) <= 254 && forall|y: int|
        0 <= y < map_lines(all) ==> (#[trigger] all[y]).len() <= longest
}

/// The direction that a character stands for.
pub open spec fn direction_of(c: char) -> Option<Direction> {
    if c == '>' {
        Some(Direction::Right)
    } else if c == '<' {
        Some(Direction::Left)
    } else if c == '^' {
        Some(Direction::Up)
    } else if c == 'v' {
        Some(Direction::Down)
    } else {
        None
    }
}

/// The moves of the first `x` characters of the line `y`, after those of
/// the lines from `first` on before it; nothing where a character stands
/// for no direction.
pub open spec fn moves_upto(all: Seq<Seq<char>>, first: int, y: int, x: nat) -> Option<Seq<Direction>>
    decreases y - first, x,
{
    if x > 0 {
        match moves_upto(all, first, y, (x - 1) as nat) {
            None => None,
            Some(moves) => match direction_of(all[y][x - 1]) {
                None => None,
                Some(d) => Some(moves.push(d)),
            },
        }
    } else if y > first {
        moves_upto(all, first, y - 1, all[y - 1].len())
    } else {
        Some(Seq::empty())
    }
}

/// The lines before the first empty line are not empty, and that line is,
/// where there is one.
proof fn lemma_map_lines(all: Seq<Seq<char>>, n: int)
    requires
        0 <= n <= all.len(),
        forall|j: int| 0 <= j < n ==> (#[trigger] all[j]).len() > 0,
        n == all.len() || all[n].len() == 0,
    ensures
        map_lines(all) == n,
    decreases n,
{
    if n > 0 {
        let rest = all.drop_first();
        assert forall|j: int| 0 <= j < n - 1 implies (#[trigger] rest[j]).len() > 0 by {
            assert(rest[j] == all[j + 1]);
        }
        if n < all.len() {
            assert(rest[n - 1] == all[n]);
        }
        lemma_map_lines(rest, n - 1);
    }
}

/// Places on which nothing stands.
fn no_objects() -> (map: Vec<Option<Object>>)
    ensures
        map.len() == PLACES,
        forall|n: int| 0 <= n < PLACES ==> #[trigger] map[n] is None,
{
    let mut map: Vec<Option<Object>> = Vec::new();
    let mut i: usize = 0;
    while i < PLACES
        invariant
            i <= PLACES,
            map.len() == i,
            forall|n: int| 0 <= n < i ==> #[trigger] map[n] is None,
        decreases PLACES - i,
    {
        map.push(None);
        i += 1;
    }
    map
}

/// The robot and the warehouse that the lines draw, each character being
/// one place wide, or two.
fn draw(all: &Vec<Vec<char>>, wide: bool) -> (result: Option<(Point, Warehouse, usize)>)
    ensures
        result is Some <==> can_draw(views(all@), if wide {
            127int
        } else {
            255int
        }),
        result matches Some(found) ==> {
            let text = views(all@);
            let by: int = if wide {
                2
            } else {
                1
            };
            &&& found.1.wf()
            &&& found.2 == map_lines(text)
            &&& found.2 <= all.len()
            &&& found.1.height == map_lines(text)
            &&& found.1.width == width_of(text, by, map_lines(text))
            &&& found.0 == robot_at(text, by, map_lines(text), 0)
            &&& forall|x: int, y: int|
                0 <= x < 256 && 0 <= y < 256 ==> #[trigger] found.1.map[y * 256 + x] == if wide {
                    drawn_wide_at(text, x, y)
                } else {
                    drawn_at(text, x, y)
                }
        },
{
    let ghost text = views(all@);
    let by: usize = if wide {
        2
    } else {
        1
    };
    let longest: usize = if wide {
        127
    } else {
        255
    };
    // how many lines draw the map
    let mut count: usize = 0;
    while count < all.len() && all[count].len() > 0
        invariant
            count <= all.len(),
            text == views(all@),
            forall|j: int| 0 <= j < count ==> (#[trigger] text[j]).len() > 0,
        decreases all.len() - count,
    {
        assert(text[count as int] == all[count as int]@);
        count += 1;
    }
    proof {
        if count < all.len() {
            assert(text[count as int] == all[count as int]@);
        }
        lemma_map_lines(text, count as int);
    }
    if count > 254 {
        return None;
    }
    let mut map = no_objects();
    let mut robot = Point::new(0, 0);
    let mut width: u8 = 0;
    let mut row: usize = 0;
    while row < count
        invariant
            row <= count,
            count == map_lines(text),
            count <= 254,
            count <= all.len(),
            text == views(all@),
            by == if wide {
                2usize
            } else {
                1usize
            },
            longest == if wide {
                127usize
            } else {
                255usize
            },
            map.len() == PLACES,
            forall|v: int| 0 <= v < row ==> (#[trigger] text[v]).len() <= longest,
            width == width_of(text, by as int, row as nat),
            robot == robot_at(text, by as int, row as nat, 0),
            forall|x: int, y: int|
                0 <= x < 256 && 0 <= y < 256 ==> #[trigger] map[y * 256 + x] == if y <= row {
                    if wide {
                        drawn_wide_at(text, x, y)
                    } else {
                        drawn_at(text, x, y)
                    }
                } else {
                    None
                },
        decreases count - row,
    {
        let line = &all[row];
        assert(text[row as int] == line@);
        if line.len() > longest {
            return None;
        }
        if width == 0 {
            width = ((line.len() % 256) * by) as u8;
        }
        let y = row + 1;
        let mut i: usize = 0;
        while i < line.len()
            invariant
                i <= line.len(),
                line.len() <= longest,
                row < count,
                count == map_lines(text),
                count <= 254,
                y == row + 1,
                text[row as int] == line@,
                by == if wide {
                    2usize
                } else {
                    1usize
                },
                longest == if wide {
                    127usize
                } else {
                    255usize
                },
                map.len() == PLACES,
                robot == robot_at(text, by as int, row as nat, i as nat),
                forall|x: int, v: int|
                    0 <= x < 256 && 0 <= v < 256 ==> #[trigger] map[v * 256 + x] == if v <= row || (v
                        == y && x <= i * by) {
                        if wide {
                            drawn_wide_at(text, x, v)
                        } else {
                            drawn_at(text, x, v)
                        }
                    } else {
                        None
                    },
            decreases line.len() - i,
        {
            let c = line[i];
            let x1 = i * by + 1;
            let ghost before = map@;
            if c == '#' {
                map.set(y * 256 + x1, Some(Object::Wall));
                if wide {
                    map.set(y * 256 + x1 + 1, Some(Object::Wall));
                }
            } else if c == 'O' {
                map.set(y * 256 + x1, Some(Object::Box(by as u8)));
            } else if c == '@' {
                robot = Point::new(x1 as u8, y as u8);
            }
            proof {
                assert forall|x: int, v: int| 0 <= x < 256 && 0 <= v < 256 implies #[trigger] map[v * 256
                    + x] == if v <= row || (v == y && x <= (i + 1) * by) {
                    if wide {
                        drawn_wide_at(text, x, v)
                    } else {
                        drawn_at(text, x, v)
                    }
                } else {
                    None
                } by {
                    if v == y && i * by < x <= (i + 1) * by {
                        assert((x - 1) / 2 == i || !wide);
                    } else {
                        assert(map[v * 256 + x] == before[v * 256 + x]);
                    }
                }
            }
            i += 1;
        }
        proof {
            assert forall|x: int, v: int| 0 <= x < 256 && 0 <= v < 256 implies #[trigger] map[v * 256 + x]
                == if v <= row + 1 {
                if wide {
                    drawn_wide_at(text, x, v)
                } else {
                    drawn_at(text, x, v)
                }
            } else {
                None
            } by {}
        }
        row += 1;
    }
    proof {
        assert forall|x: int, y: int| 0 <= x < 256 && 0 <= y < 256 implies #[trigger] map[y * 256 + x]
            == if wide {
            drawn_wide_at(text, x, y)
        } else {
            drawn_at(text, x, y)
        } by {}
    }
    Some((robot, Warehouse::new(map, width, count as u8), count))
}

/// The moves that the lines after the line `first` write; nothing where a
/// character stands for no direction.
pub fn parse_moves(all: &Vec<Vec<char>>, first: usize) -> (result: Option<Vec<Direction>>)
    requires
        first <= all.len(),
    ensures
        match moves_upto(views(all@), first as int, all@.len() as int, 0) {
            None => result is None,
            Some(moves) => result matches Some(found) && found@ == moves,
        },
{
    let ghost text = views(all@);
    let mut moves: Vec<Direction> = Vec::new();
    let mut y: usize = first;
    while y < all.len()
        invariant
            first <= y <= all.len(),
            text == views(all@),
            moves_upto(text, first as int, y as int, 0) == Some(moves@),
        decreases all.len() - y,
    {
        let line = &all[y];
        assert(text[y as int] == line@);
        let mut x: usize = 0;
        while x < line.len()
            invariant
                x <= line.len(),
                first <= y < all.len(),
                text == views(all@),
                text[y as int] == line@,
                moves_upto(text, first as int, y as int, x as nat) == Some(moves@),
            decreases line.len() - x,
        {
            let c = line[x];
            let d = if c == '>' {
                Direction::Right
            } else if c == '<' {
                Direction::Left
            } else if c == '^' {
                Direction::Up
            } else if c == 'v' {
                Direction::Down
            } else {
                proof {
                    assert(moves_upto(text, first as int, y as int, (x + 1) as nat) is None);
                    lemma_moves_stay_unread(text, first as int, y as int, (x + 1) as nat, all@.len() as int, 0);
                }
                return None;
            };
            moves.push(d);
            x += 1;
        }
        y += 1;
    }
    Some(moves)
}

/// Moves that cannot be read cannot be read with more that follows.
proof fn lemma_moves_stay_unread(all: Seq<Seq<char>>, first: int, y: int, x: nat, further: int, at: nat)
    requires
        first <= y,
        y < further || (y == further && x <= at),
        x <= all[y].len(),
        moves_upto(all, first, y, x) is None,
    ensures
        moves_upto(all, first, further, at) is None,
    decreases further - first, at,
{
    if y == further && x == at {
    } else if at > 0 {
        lemma_moves_stay_unread(all, first, y, x, further, (at - 1) as nat);
    } else {
        lemma_moves_stay_unread(all, first, y, x, further - 1, all[further - 1].len());
    }
}

/// The robot, the warehouse and the moves that the text writes: the map
/// stands before the first empty line, and the moves after it.
pub fn parse(input: &str) -> (result: Option<(Point, Warehouse, Vec<Direction>)>)
    ensures
        result is Some <==> can_draw(lines_of(input@), 255) && moves_upto(
            lines_of(input@),
            first_move_line(lines_of(input@)),
            lines_of(input@).len() as int,
            0,
        ) is Some,
        result matches Some(found) ==> {
            let text = lines_of(input@);
            &&& found.1.wf()
            &&& found.1.height == map_lines(text)
            &&& found.1.width == width_of(text, 1, map_lines(text))
            &&& found.0 == robot_at(text, 1, map_lines(text), 0)
            &&& forall|x: int, y: int|
                0 <= x < 256 && 0 <= y < 256 ==> #[trigger] found.1.map[y * 256 + x] == drawn_at(text, x, y)
            &&& Some(found.2@) == moves_upto(text, first_move_line(text), text.len() as int, 0)
        },
{
    let all = lines(input);
    let (robot, warehouse, count) = match draw(&all, false) {
        None => {
            return None;
        },
        Some(found) => found,
    };
    let first = if count < all.len() {
        count + 1
    } else {
        count
    };
    match parse_moves(&all, first) {
        None => None,
        Some(moves) => Some((robot, warehouse, moves)),
    }
}

/// The line on which the moves begin: the line after the first empty
/// line.
pub open spec fn first_move_line(all: Seq<Seq<char>>) -> int {
    if map_lines(all) < all.len() {
        map_lines(all) as int + 1
    } else {
        map_lines(all) as int
    }
}

/// The robot and the wide warehouse that the text writes.
pub fn parse_wide(input: &str) -> (result: Option<(Point, Warehouse)>)
    ensures
        result is Some <==> can_draw(lines_of(input@), 127),
        result matches Some(found) ==> {
            let text = lines_of(input@);
            &&& found.1.wf()
            &&& found.1.height == map_lines(text)
            &&& found.1.width == width_of(text, 2, map_lines(text))
            &&& found.0 == robot_at(text, 2, map_lines(text), 0)
            &&& forall|x: int, y: int|
                0 <= x < 256 && 0 <= y < 256 ==> #[trigger] found.1.map[y * 256 + x] == drawn_wide_at(
                    text,
                    x,
                    y,
                )
        },
{
    let all = lines(input);
    match draw(&all, true) {
        None => None,
        Some(found) => Some((found.0, found.1)),
    }
}

/// The places of the warehouse that the lines draw.
pub open spec fn drawn(all: Seq<Seq<char>>) -> Seq<Option<Object>> {
    Seq::new(PLACES as nat, |n: int| drawn_at(all, n % 256, n / 256))
}

/// The places of the wide warehouse that the lines draw.
pub open spec fn drawn_wide(all: Seq<Seq<char>>) -> Seq<Option<Object>> {
    Seq::new(PLACES as nat, |n: int| drawn_wide_at(all, n % 256, n / 256))
}

/// Whether the sums are those of the numbers of the boxes after the moves
/// that the lines write, in the warehouse that they draw and in the wide
/// one, and the places and the robot those of the wide warehouse after the
/// moves.
pub open spec fn is_result(
    all: Seq<Seq<char>>,
    sum: u32,
    wide_sum: u32,
    places: Seq<Option<Object>>,
    robot: Point,
) -> bool {
    match moves_upto(all, first_move_line(all), all.len() as int, 0) {
        None => false,
        Some(moves) => {
            &&& match after_moves(drawn(all), robot_at(all, 1, map_lines(all), 0), moves, moves.len()) {
                None => false,
                Some(end) => gps_sum(end.1, PLACES as nat) == Some(sum as nat),
            }
            &&& match after_wide_moves(
                drawn_wide(all),
                robot_at(all, 2, map_lines(all), 0),
                moves,
                moves.len(),
            ) {
                None => false,
                Some(end) => end.0 == robot && end.1 == places && gps_sum(end.1, PLACES as nat) == Some(
                    wide_sum as nat,
                ),
            }
        },
    }
}

/// Whether the lines have an answer: they draw a wide warehouse and write
/// moves, no move leads beyond the places that can be numbered in the
/// warehouse or in the wide one, and no box ends in the row or the column
/// with the number nought.
pub open spec fn has_result(all: Seq<Seq<char>>) -> bool {
    &&& can_draw(all, 127)
    &&& match moves_upto(all, first_move_line(all), all.len() as int, 0) {
        None => false,
        Some(moves) => {
            &&& match after_moves(drawn(all), robot_at(all, 1, map_lines(all), 0), moves, moves.len()) {
                None => false,
                Some(end) => gps_sum(end.1, PLACES as nat) is Some,
            }
            &&& match after_wide_moves(
                drawn_wide(all),
                robot_at(all, 2, map_lines(all), 0),
                moves,
                moves.len(),
            ) {
                None => false,
                Some(end) => gps_sum(end.1, PLACES as nat) is Some,
            }
        },
    }
}

/// The sums of the numbers of the boxes after the moves of the robot in
/// the warehouse and in the wide warehouse, and the wide warehouse and its
/// robot after the moves; nothing where the text cannot be read, where a
/// move leads beyond the places that can be numbered, or where a box ends
/// in the row or the column with the number nought.
pub fn solve(input: &str) -> (result: Option<(u32, u32, Warehouse, Point)>)
    ensures
        result is Some <==> has_result(lines_of(input@)),
        result matches Some(found) ==> found.2.wf() && is_result(
            lines_of(input@),
            found.0,
            found.1,
            found.2.map@,
            found.3,
        ),
{
    let ghost text = lines_of(input@);
    let (mut robot, mut warehouse, moves) = match parse(input) {
        None => {
            proof {
                if can_draw(text, 127) {
                    assert forall|y: int| 0 <= y < map_lines(text) implies (#[trigger] text[y]).len()
                        <= 255 by {}
                }
            }
            return None;
        },
        Some(found) => found,
    };
    assert(warehouse.map@ =~= drawn(text)) by {
        assert forall|n: int| 0 <= n < PLACES implies warehouse.map@[n] == drawn(text)[n] by {
            assert(warehouse.map@[(n / 256) * 256 + n % 256] == drawn_at(text, n % 256, n / 256));
        }
    }
    let part1 = match execute_robot_movements(&mut robot, &mut warehouse, &moves) {
        None => {
            return None;
        },
        Some(sum) => sum,
    };
    let (mut robot, mut warehouse) = match parse_wide(input) {
        None => {
            return None;
        },
        Some(found) => found,
    };
    assert(warehouse.map@ =~= drawn_wide(text)) by {
        assert forall|n: int| 0 <= n < PLACES implies warehouse.map@[n] == drawn_wide(text)[n] by {
            assert(warehouse.map@[(n / 256) * 256 + n % 256] == drawn_wide_at(text, n % 256, n / 256));
        }
    }
    let part2 = match execute_robot_movements_on_wide_map(&mut robot, &mut warehouse, &moves) {
        None => {
            return None;
        },
        Some(sum) => sum,
    };
    assert(is_result(text, part1, part2, warehouse.map@, robot));
    assert(has_result(text));
    let result = Some((part1, part2, warehouse, robot));
    proof {
        assert(is_result(
            text,
            result->Some_0.0,
            result->Some_0.1,
            result->Some_0.2.map@,
            result->Some_0.3,
        ));
    }
    result
}

} // verus!
