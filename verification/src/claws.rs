//! Claw machines: a press of the button A moves the claw by one step and
//! costs three tokens, a press of the button B moves it by another and costs
//! one, and the prize is won where the claw stands exactly over it.

use crate::text::{
    all_digits, copy_range, decimal_value, first_index_of, lines, lines_of, parse_decimal, views,
};
use vstd::prelude::*;

verus! {

/// A place, or a step from one place to another.
#[derive(Clone, Copy, Debug)]
pub struct Point {
    pub x: u64,
    pub y: u64,
}

/// A button: the step that it makes the claw take, and what a press costs.
#[derive(Clone, Copy, Debug)]
pub struct Button {
    pub movement: Point,
    pub tokens: u64,
}

/// A claw machine with its two buttons and the place of its prize.
#[derive(Clone, Copy, Debug)]
pub struct ClawMachine {
    pub button_a: Button,
    pub button_b: Button,
    pub prize: Point,
}

/// The most presses of one button that are tried.
pub const MAX_PRESSES: u64 = 100;

impl ClawMachine {
    /// Whether these presses bring the claw over the prize.
    pub open spec fn wins(&self, press_a: int, press_b: int) -> bool {
        &&& press_a * self.button_a.movement.x + press_b * self.button_b.movement.x == self.prize.x
        &&& press_a * self.button_a.movement.y + press_b * self.button_b.movement.y == self.prize.y
    }

    /// What these presses cost.
    pub open spec fn cost(&self, press_a: int, press_b: int) -> int {
        press_a * self.button_a.tokens + press_b * self.button_b.tokens
    }

    /// Whether no presses before these win at a cost that fits in 64 bits,
    /// in the order in which they are tried: the presses of A from 0 up, and
    /// for each those of B from 0 up.
    pub open spec fn none_before(&self, press_a: int, press_b: int) -> bool {
        forall|a: int, b: int|
            0 <= a < MAX_PRESSES && 0 <= b < MAX_PRESSES && (a < press_a || (a == press_a && b
                < press_b)) ==> !(#[trigger] self.wins(a, b) && self.cost(a, b) <= u64::MAX)
    }

    /// What the presses cost, where they win the prize and the cost fits in
    /// 64 bits.
    pub fn gamble_on(&self, press_a: &u64, press_b: &u64) -> (tokens: Option<u64>)
        ensures
            tokens is Some <==> self.wins(*press_a as int, *press_b as int) && self.cost(
                *press_a as int,
                *press_b as int,
            ) <= u64::MAX,
            tokens matches Some(cost) ==> cost == self.cost(*press_a as int, *press_b as int),
    {
        let a = *press_a;
        let b = *press_b;
        let result_x = match sum_of_products(a, self.button_a.movement.x, b, self.button_b.movement.x) {
            None => {
                return None;
            },
            Some(sum) => sum,
        };
        if result_x == self.prize.x {
            let result_y = match sum_of_products(
                a,
                self.button_a.movement.y,
                b,
                self.button_b.movement.y,
            ) {
                None => {
                    return None;
                },
                Some(sum) => sum,
            };
            if result_y == self.prize.y {
                return sum_of_products(a, self.button_a.tokens, b, self.button_b.tokens);
            }
        }
        None
    }

    /// Whether the presses are the first that win the prize at a cost that
    /// fits in 64 bits.
    pub open spec fn wins_first(&self, a: int, b: int) -> bool {
        0 <= a < MAX_PRESSES && 0 <= b < MAX_PRESSES && self.wins(a, b) && self.cost(a, b)
            <= u64::MAX && self.none_before(a, b)
    }

    /// What the first presses that win the prize cost; nothing where no
    /// presses win it.
    pub open spec fn tokens_to_win(&self) -> Option<u64> {
        if exists|a: int, b: int| #[trigger] self.wins_first(a, b) {
            let (a, b) = choose|a: int, b: int| #[trigger] self.wins_first(a, b);
            Some(self.cost(a, b) as u64)
        } else {
            None
        }
    }

    /// There are no two first presses that win.
    pub proof fn lemma_one_first_win(&self, a: int, b: int, c: int, d: int)
        requires
            self.wins_first(a, b),
            self.wins_first(c, d),
        ensures
            a == c && b == d,
    {
        if a < c || (a == c && b < d) {
            assert(!(self.wins(a, b) && self.cost(a, b) <= u64::MAX));
        } else if c < a || (c == a && d < b) {
            assert(!(self.wins(c, d) && self.cost(c, d) <= u64::MAX));
        }
    }

    /// What the first presses that win the prize cost, with fewer than
    /// `MAX_PRESSES` presses of each button.
    pub fn calculate_tokens_to_win_using_iteration(&self) -> (tokens: Option<u64>)
        ensures
            tokens == self.tokens_to_win(),
            match tokens {
                Some(cost) => exists|a: int, b: int|
                    0 <= a < MAX_PRESSES && 0 <= b < MAX_PRESSES && #[trigger] self.wins(a, b)
                        && self.none_before(a, b) && cost == self.cost(a, b),
                None => forall|a: int, b: int|
                    0 <= a < MAX_PRESSES && 0 <= b < MAX_PRESSES ==> !(#[trigger] self.wins(a, b)
                        && self.cost(a, b) <= u64::MAX),
            },
    {
        let mut press_a: u64 = 0;
        while press_a < MAX_PRESSES
            invariant
                press_a <= MAX_PRESSES,
                forall|a: int, b: int|
                    0 <= a < press_a && 0 <= b < MAX_PRESSES ==> !(#[trigger] self.wins(a, b)
                        && self.cost(a, b) <= u64::MAX),
            decreases MAX_PRESSES - press_a,
        {
            let mut press_b: u64 = 0;
            while press_b < MAX_PRESSES
                invariant
                    press_a < MAX_PRESSES,
                    press_b <= MAX_PRESSES,
                    forall|a: int, b: int|
                        0 <= a < MAX_PRESSES && 0 <= b < MAX_PRESSES && (a < press_a || (a == press_a
                            && b < press_b)) ==> !(#[trigger] self.wins(a, b) && self.cost(a, b)
                            <= u64::MAX),
                decreases MAX_PRESSES - press_b,
            {
                let result = self.gamble_on(&press_a, &press_b);
                if result.is_some() {
                    proof {
                        assert(self.wins(press_a as int, press_b as int));
                        assert(self.none_before(press_a as int, press_b as int));
                        assert(self.wins_first(press_a as int, press_b as int));
                        let (a, b) = choose|a: int, b: int| #[trigger] self.wins_first(a, b);
                        self.lemma_one_first_win(a, b, press_a as int, press_b as int);
                    }
                    return result;
                }
                press_b += 1;
            }
            press_a += 1;
        }
        proof {
            assert forall|a: int, b: int| !#[trigger] self.wins_first(a, b) by {
                if self.wins_first(a, b) {
                    assert(!(self.wins(a, b) && self.cost(a, b) <= u64::MAX));
                }
            }
        }
        None
    }

    /// Puts the prize further away by `prize_increment` in each direction.
    /// Tells whether it could: whether the new place can be held.
    pub fn add_to_prize(&mut self, prize_increment: u64) -> (moved: bool)
        ensures
            moved == (old(self).prize.x + prize_increment <= u64::MAX && old(self).prize.y
                + prize_increment <= u64::MAX),
            final(self).button_a == old(self).button_a,
            final(self).button_b == old(self).button_b,
            moved ==> final(self).prize.x == old(self).prize.x + prize_increment,
            moved ==> final(self).prize.y == old(self).prize.y + prize_increment,
            !moved ==> final(self).prize == old(self).prize,
    {
        match (self.prize.x.checked_add(prize_increment), self.prize.y.checked_add(prize_increment)) {
            (Some(x), Some(y)) => {
                self.prize = Point { x, y };
                true
            },
            _ => false,
        }
    }

    /// Whether the prize can be put further away by `prize_increment`: the
    /// new place can be held in 64 bits.
    pub open spec fn can_move(&self, prize_increment: u64) -> bool {
        self.prize.x + prize_increment <= u64::MAX && self.prize.y + prize_increment <= u64::MAX
    }

    /// Whether this machine is `before` with its prize further away by
    /// `prize_increment` in each direction.
    pub open spec fn is_moved(&self, before: ClawMachine, prize_increment: u64) -> bool {
        &&& self.button_a == before.button_a
        &&& self.button_b == before.button_b
        &&& self.prize.x == before.prize.x + prize_increment
        &&& self.prize.y == before.prize.y + prize_increment
    }

    /// Puts the prizes of the machines further away, one after the other,
    /// up to the first whose prize cannot be. Tells whether all could be;
    /// the first that could not, and the machines after it, are left as
    /// they were.
    pub fn add_to_prices(machines: &mut Vec<ClawMachine>, prize_increment: u64) -> (moved: bool)
        ensures
            final(machines).len() == old(machines).len(),
            moved == all_can_move(old(machines)@, prize_increment, old(machines)@.len()),
            forall|i: int|
                0 <= i < final(machines).len() ==> if all_can_move(
                    old(machines)@,
                    prize_increment,
                    (i + 1) as nat,
                ) {
                    (#[trigger] final(machines)[i]).is_moved(old(machines)[i], prize_increment)
                } else {
                    final(machines)[i] == old(machines)[i]
                },
    {
        let mut i: usize = 0;
        while i < machines.len()
            invariant
                i <= machines.len(),
                machines.len() == old(machines).len(),
                all_can_move(old(machines)@, prize_increment, i as nat),
                forall|j: int|
                    0 <= j < i ==> (#[trigger] machines[j]).is_moved(old(machines)[j], prize_increment),
                forall|j: int| i <= j < machines.len() ==> #[trigger] machines[j] == old(machines)[j],
            decreases machines.len() - i,
        {
            let mut machine = machines[i];
            if !machine.add_to_prize(prize_increment) {
                proof {
                    assert(!old(machines)[i as int].can_move(prize_increment));
                    assert forall|j: int| 0 <= j < machines.len() implies if all_can_move(
                        old(machines)@,
                        prize_increment,
                        (j + 1) as nat,
                    ) {
                        (#[trigger] machines[j]).is_moved(old(machines)[j], prize_increment)
                    } else {
                        machines[j] == old(machines)[j]
                    } by {
                        if j >= i {
                            assert(!all_can_move(old(machines)@, prize_increment, (j + 1) as nat));
                        }
                    }
                }
                return false;
            }
            machines.set(i, machine);
            i += 1;
        }
        true
    }
}

/// Whether the prizes of the first `n` machines can be put further away by
/// `prize_increment`.
pub open spec fn all_can_move(machines: Seq<ClawMachine>, prize_increment: u64, n: nat) -> bool {
    forall|j: int| 0 <= j < n ==> (#[trigger] machines[j]).can_move(prize_increment)
}

/// The sum of two products, where it fits in 64 bits.
fn sum_of_products(a: u64, x: u64, b: u64, y: u64) -> (sum: Option<u64>)
    ensures
        sum is Some <==> a * x + b * y <= u64::MAX,
        sum matches Some(s) ==> s == a * x + b * y,
{
    assert(a * x >= 0 && b * y >= 0) by (nonlinear_arith)
        requires
            a >= 0,
            x >= 0,
            b >= 0,
            y >= 0,
    ;
    match (a.checked_mul(x), b.checked_mul(y)) {
        (Some(first), Some(second)) => first.checked_add(second),
        _ => None,
    }
}

/// The sum of what the first `n` machines cost to win, where they can be
/// won.
pub open spec fn total_tokens(costs: Seq<Option<u64>>, n: nat) -> nat
    decreases n,
{
    if n == 0 {
        0
    } else {
        total_tokens(costs, (n - 1) as nat) + match costs[n - 1] {
            Some(cost) => cost as nat,
            None => 0nat,
        }
    }
}

/// What each of the machines costs to win.
pub open spec fn costs_of(machines: Seq<ClawMachine>) -> Seq<Option<u64>> {
    Seq::new(machines.len(), |i: int| machines[i].tokens_to_win())
}

/// The sum over the first machines is no more than the sum over more.
proof fn lemma_total_tokens_grow(costs: Seq<Option<u64>>, n: nat, more: nat)
    requires
        n <= more,
    ensures
        total_tokens(costs, n) <= total_tokens(costs, more),
    decreases more,
{
    if n < more {
        lemma_total_tokens_grow(costs, n, (more - 1) as nat);
    }
}

/// The sum of what the machines cost to win by the first presses that win
/// them, with what each costs; nothing where the sum does not fit in 64
/// bits.
pub fn calculate_tokens_using_iteration(machines: &Vec<ClawMachine>) -> (result: Option<
    (u64, Vec<Option<u64>>),
>)
    ensures
        result is Some <==> total_tokens(costs_of(machines@), machines.len() as nat) <= u64::MAX,
        result matches Some(found) ==> {
            &&& found.1@ == costs_of(machines@)
            &&& found.0 == total_tokens(found.1@, machines.len() as nat)
        },
{
    let ghost all = costs_of(machines@);
    let mut result: u64 = 0;
    let mut costs: Vec<Option<u64>> = Vec::new();
    let mut i: usize = 0;
    while i < machines.len()
        invariant
            i <= machines.len(),
            all == costs_of(machines@),
            costs.len() == i,
            result == total_tokens(all, i as nat),
            forall|j: int| 0 <= j < i ==> #[trigger] costs[j] == all[j],
        decreases machines.len() - i,
    {
        let cost = machines[i].calculate_tokens_to_win_using_iteration();
        costs.push(cost);
        proof {
            lemma_total_tokens_grow(all, (i + 1) as nat, machines.len() as nat);
        }
        result = match result.checked_add(match cost {
            Some(cost) => cost,
            None => 0,
        }) {
            None => {
                return None;
            },
            Some(sum) => sum,
        };
        i += 1;
    }
    assert(costs@ =~= all);
    Some((result, costs))
}

/// Whether `s` is a run of digits whose value fits in 64 bits.
pub open spec fn is_number(s: Seq<char>) -> bool {
    s.len() > 0 && all_digits(s) && decimal_value(s) <= u64::MAX
}

/// Whether the first comma of the line stands at place `comma`, and two
/// numbers stand on it: one from place `from` up to the comma, and one from
/// the fourth place after the comma to the end.
pub open spec fn holds_pair(line: Seq<char>, from: int, comma: int) -> bool {
    &&& from <= comma < line.len()
    &&& line[comma] == ','
    &&& forall|j: int| 0 <= j < comma ==> line[j] != ','
    &&& comma + 4 <= line.len()
    &&& is_number(line.subrange(from, comma))
    &&& is_number(line.skip(comma + 4))
}

/// Whether two numbers stand on the line, the first from place `from` on.
pub open spec fn has_pair(line: Seq<char>, from: int) -> bool {
    exists|comma: int| holds_pair(line, from, comma)
}

/// The two numbers of a line, of which the first starts at place `from`.
fn read_pair(line: &Vec<char>, from: usize) -> (pair: Option<Point>)
    ensures
        pair is Some <==> has_pair(line@, from as int),
        pair matches Some(point) ==> exists|comma: int|
            holds_pair(line@, from as int, comma) && point.x == decimal_value(
                line@.subrange(from as int, comma),
            ) && point.y == decimal_value(line@.skip(comma + 4)),
{
    let split_index = match first_index_of(line, ',') {
        None => {
            return None;
        },
        Some(index) => index,
    };
    proof {
        assert forall|comma: int| holds_pair(line@, from as int, comma) implies comma
            == split_index by {
            if comma < split_index {
                assert(line[comma] != ',');
            } else if comma > split_index {
                assert(line[split_index as int] != ',');
            }
        }
    }
    if split_index < from || line.len() - split_index < 4 {
        return None;
    }
    let first = copy_range(line, from, split_index);
    let second = copy_range(line, split_index + 4, line.len());
    assert(first@ == line@.subrange(from as int, split_index as int));
    assert(second@ == line@.skip(split_index + 4));
    match (parse_decimal(&first), parse_decimal(&second)) {
        (Some(x), Some(y)) => {
            assert(holds_pair(line@, from as int, split_index as int));
            Some(Point { x, y })
        },
        _ => None,
    }
}

impl Point {
    /// The place with these two numbers.
    pub fn new(x: u64, y: u64) -> (point: Point)
        ensures
            point.x == x,
            point.y == y,
    {
        Point { x, y }
    }

    /// The place of a prize, which its line writes after a title of 9
    /// characters.
    pub fn from_prize_string(prize_line: &Vec<char>) -> (prize: Option<Point>)
        ensures
            prize is Some <==> has_pair(prize_line@, 9),
            prize matches Some(point) ==> exists|comma: int|
                holds_pair(prize_line@, 9, comma) && point.x == decimal_value(
                    prize_line@.subrange(9, comma),
                ) && point.y == decimal_value(prize_line@.skip(comma + 4)),
    {
        read_pair(prize_line, 9)
    }
}

impl Button {
    /// A button, whose line writes its step after a title of 12 characters,
    /// and of which a press costs `tokens`.
    pub fn from_string(line: &Vec<char>, tokens: u64) -> (button: Option<Button>)
        ensures
            button is Some <==> has_pair(line@, 12),
            button matches Some(found) ==> found.tokens == tokens && exists|comma: int|
                holds_pair(line@, 12, comma) && found.movement.x == decimal_value(
                    line@.subrange(12, comma),
                ) && found.movement.y == decimal_value(line@.skip(comma + 4)),
    {
        match read_pair(line, 12) {
            None => None,
            Some(movement) => Some(Button { movement, tokens }),
        }
    }
}

impl ClawMachine {
    /// The machines of the text: each takes four lines, one for the button
    /// A, one for the button B, one for the prize, and one that does not
    /// count. Lines at the end that make no machine are passed over. Nothing
    /// where a line of a machine cannot be read.
    pub fn from_string(input: &str) -> (result: Option<Vec<ClawMachine>>)
        ensures
            result is Some <==> forall|m: int|
                0 <= m && 4 * m + 2 < lines_of(input@).len() ==> #[trigger] writes_machine(
                    lines_of(input@),
                    m,
                ),
            result matches Some(machines) ==> machines.len() == (lines_of(input@).len() + 1) / 4,
    {
        let rows = lines(input);
        let ghost all = views(rows@);
        let mut result: Vec<ClawMachine> = Vec::new();
        let mut m: usize = 0;
        while rows.len() >= 3 && m <= (rows.len() - 3) / 4
            invariant
                all == views(rows@),
                all == lines_of(input@),
                result.len() == m,
                4 * m <= rows.len() + 1,
                forall|n: int| 0 <= n < m ==> #[trigger] writes_machine(all, n),
            decreases rows.len() + 4 - 4 * m,
        {
            let at = 4 * m;
            assert(all[at as int] == rows[at as int]@);
            assert(all[at + 1] == rows[at + 1]@);
            assert(all[at + 2] == rows[at + 2]@);
            let button_a = Button::from_string(&rows[at], 3);
            let button_b = Button::from_string(&rows[at + 1], 1);
            let prize = Point::from_prize_string(&rows[at + 2]);
            match (button_a, button_b, prize) {
                (Some(button_a), Some(button_b), Some(prize)) => {
                    result.push(ClawMachine { button_a, button_b, prize });
                },
                _ => {
                    assert(!writes_machine(all, m as int));
                    return None;
                },
            }
            assert(writes_machine(all, m as int));
            m += 1;
        }
        Some(result)
    }
}

/// Whether the lines write the machine of number `m`.
pub open spec fn writes_machine(all: Seq<Seq<char>>, m: int) -> bool {
    &&& has_pair(all[4 * m], 12)
    &&& has_pair(all[4 * m + 1], 12)
    &&& has_pair(all[4 * m + 2], 9)
}

} // verus!
