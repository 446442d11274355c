//! Calibration equations: a result and a list of values, between which the
//! operators are missing. An equation can be true where some choice of `+`
//! and `*`, and of joining two numbers by their digits where that is
//! enabled, applied from left to right, gives the result. A value or an
//! intermediate result above the result rules the equation out.

use crate::text::{all_digits, copy_range, decimal_value, lines, lines_of, parse_decimal, split, split_on, views};
use vstd::prelude::*;
use vstd::slice::{slice_index_get, slice_subrange};

verus! {

/// An equation as it is read: its result and all its values.
pub struct RawEquation {
    pub result: u64,
    pub all_values: Vec<u64>,
}

/// An equation that is being tried: its result, the value worked out so
/// far, and the values that are still to come.
pub struct Equation<'a> {
    pub result: u64,
    pub first_value: u64,
    pub other_values: &'a [u64],
}

/// The number of digits of a number.
pub open spec fn digits(n: nat) -> nat
    decreases n,
{
    if n < 10 {
        1
    } else {
        1 + digits(n / 10)
    }
}

/// Ten to the power of `k`.
pub open spec fn pow10(k: nat) -> nat
    decreases k,
{
    if k == 0 {
        1
    } else {
        10 * pow10((k - 1) as nat)
    }
}

/// The number written by the digits of `first` followed by those of
/// `second`.
pub open spec fn joined(first: nat, second: nat) -> nat {
    first * pow10(digits(second)) + second
}

/// Whether the values can be made to give the result.
pub open spec fn holds(result: nat, first: nat, others: Seq<u64>, enable_concat: bool) -> bool
    decreases others.len(),
{
    if others.len() == 0 {
        result == first
    } else if result < first || result < others[0] {
        false
    } else {
        ||| holds(result, first + others[0] as nat, others.drop_first(), enable_concat)
        ||| holds(result, first * others[0] as nat, others.drop_first(), enable_concat)
        ||| (enable_concat && holds(
            result,
            joined(first, others[0] as nat),
            others.drop_first(),
            enable_concat,
        ))
    }
}

/// What has grown beyond the result cannot give it any more.
pub proof fn lemma_too_large(result: nat, first: nat, others: Seq<u64>, enable_concat: bool)
    requires
        first > result,
    ensures
        !holds(result, first, others, enable_concat),
{
}

/// The number of digits of `number`.
pub fn number_of_digits(number: u64) -> (count: u32)
    ensures
        count == digits(number as nat),
        1 <= count <= 20,
{
    let mut count: u32 = 1;
    let mut rest = number;
    proof {
        assert(pow10(20) > u64::MAX) by {
            reveal_with_fuel(pow10, 21);
        }
        lemma_digits_bound(number as nat, 20);
        lemma_digits_positive(number as nat);
    }
    while rest >= 10
        invariant
            1 <= count,
            digits(number as nat) == (count - 1) + digits(rest as nat),
            digits(number as nat) <= 20,
        decreases rest,
    {
        proof {
            lemma_digits_positive((rest / 10) as nat);
        }
        rest = rest / 10;
        count += 1;
    }
    count
}

proof fn lemma_digits_positive(n: nat)
    ensures
        digits(n) >= 1,
    decreases n,
{
    if n >= 10 {
        lemma_digits_positive(n / 10);
    }
}

proof fn lemma_digits_bound(n: nat, k: nat)
    requires
        n < pow10(k),
        k >= 1,
    ensures
        digits(n) <= k,
    decreases k,
{
    if n >= 10 {
        assert(pow10(k) == 10 * pow10((k - 1) as nat));
        if k == 1 {
            assert(pow10(0) == 1);
        } else {
            lemma_digits_bound(n / 10, (k - 1) as nat);
        }
    }
}

/// Ten to the power of `k`, where it fits in 64 bits.
fn power_of_ten(k: u32) -> (power: Option<u64>)
    ensures
        power is Some <==> pow10(k as nat) <= u64::MAX,
        power matches Some(p) ==> p == pow10(k as nat),
{
    let mut power: u64 = 1;
    let mut i: u32 = 0;
    while i < k
        invariant
            i <= k,
            power == pow10(i as nat),
        decreases k - i,
    {
        match power.checked_mul(10) {
            None => {
                proof {
                    lemma_pow10_grows((i + 1) as nat, k as nat);
                }
                return None;
            },
            Some(more) => {
                power = more;
            },
        }
        i += 1;
    }
    Some(power)
}

proof fn lemma_pow10_grows(k: nat, more: nat)
    requires
        k <= more,
    ensures
        pow10(k) <= pow10(more),
    decreases more,
{
    if k < more {
        lemma_pow10_grows(k, (more - 1) as nat);
    }
}

/// The number written by the digits of `first` followed by those of
/// `second`, where it fits in 64 bits.
fn join_numbers(first: u64, second: u64) -> (number: Option<u64>)
    ensures
        number is Some <==> joined(first as nat, second as nat) <= u64::MAX,
        number matches Some(n) ==> n == joined(first as nat, second as nat),
{
    let power = match power_of_ten(number_of_digits(second)) {
        None => {
            if first == 0 {
                return Some(second);
            }
            proof {
                assert(first * pow10(digits(second as nat)) >= pow10(digits(second as nat)))
                    by (nonlinear_arith)
                    requires
                        first >= 1,
                        pow10(digits(second as nat)) >= 0,
                ;
            }
            return None;
        },
        Some(power) => power,
    };
    match first.checked_mul(power) {
        None => None,
        Some(shifted) => shifted.checked_add(second),
    }
}

impl<'a> Equation<'a> {
    /// An equation with this result, this value so far and these values to
    /// come.
    pub fn new(result: u64, first_value: u64, other_values: &'a [u64]) -> (equation: Equation<'a>)
        ensures
            equation.result == result,
            equation.first_value == first_value,
            equation.other_values@ == other_values@,
    {
        Equation { result, first_value, other_values }
    }

    /// The equation that is to be tried for what was read: its first value
    /// is the value so far.
    pub fn from_raw(raw: &'a RawEquation) -> (equation: Equation<'a>)
        requires
            raw.all_values.len() >= 1,
        ensures
            equation.result == raw.result,
            equation.first_value == raw.all_values[0],
            equation.other_values@ == raw.all_values@.drop_first(),
    {
        let all = raw.all_values.as_slice();
        let other_values = slice_subrange(all, 1, all.len());
        Equation { result: raw.result, first_value: raw.all_values[0], other_values }
    }

    /// Whether the equation can be true.
    pub fn can_be_true(&self, enable_concat: bool) -> (can: bool)
        ensures
            can == holds(
                self.result as nat,
                self.first_value as nat,
                self.other_values@,
                enable_concat,
            ),
        decreases self.other_values@.len(),
    {
        if self.other_values.len() == 0 {
            return self.result == self.first_value;
        }
        let first = self.first_value;
        let second = *slice_index_get(self.other_values, 0);
        if self.result < first || self.result < second {
            return false;
        }
        let next_other_values = slice_subrange(self.other_values, 1, self.other_values.len());
        assert(next_other_values@ == self.other_values@.drop_first());
        let ghost result = self.result as nat;
        match first.checked_add(second) {
            None => {
                proof {
                    lemma_too_large(result, (first + second) as nat, next_other_values@, enable_concat);
                }
            },
            Some(next_first) => {
                let next_eq = Equation::new(self.result, next_first, next_other_values);
                if next_eq.can_be_true(enable_concat) {
                    return true;
                }
            },
        }
        match first.checked_mul(second) {
            None => {
                proof {
                    lemma_too_large(result, (first * second) as nat, next_other_values@, enable_concat);
                }
            },
            Some(next_first) => {
                let next_eq = Equation::new(self.result, next_first, next_other_values);
                if next_eq.can_be_true(enable_concat) {
                    return true;
                }
            },
        }
        if enable_concat {
            match join_numbers(first, second) {
                None => {
                    proof {
                        lemma_too_large(
                            result,
                            joined(first as nat, second as nat),
                            next_other_values@,
                            enable_concat,
                        );
                    }
                },
                Some(next_first) => {
                    let next_eq = Equation::new(self.result, next_first, next_other_values);
                    if next_eq.can_be_true(enable_concat) {
                        return true;
                    }
                },
            }
        }
        false
    }
}

/// The place of the first `": "` in the line, if there is one.
pub open spec fn colon_at(line: Seq<char>, i: int) -> bool {
    &&& 0 <= i
    &&& i + 1 < line.len()
    &&& line[i] == ':'
    &&& line[i + 1] == ' '
    &&& forall|j: int| 0 <= j < i ==> !(#[trigger] line[j] == ':' && line[j + 1] == ' ')
}

/// What a line holds between its first `": "` and its second, or its end.
pub open spec fn values_part(line: Seq<char>, i: int) -> Seq<char> {
    let rest = line.subrange(i + 2, line.len() as int);
    if exists|j: int| colon_at(rest, j) {
        rest.take(choose|j: int| colon_at(rest, j))
    } else {
        rest
    }
}

/// Whether a line writes an equation: a number, `": "`, and numbers with a
/// single blank between them, all of them fit for 64 bits.
pub open spec fn writes_equation(line: Seq<char>) -> bool {
    exists|i: int|
        {
            &&& #[trigger] colon_at(line, i)
            &&& is_number(line.take(i))
            &&& forall|n: int|
                0 <= n < split_on(values_part(line, i), ' ').len() ==> is_number(
                    #[trigger] split_on(values_part(line, i), ' ')[n],
                )
        }
}

/// Whether `s` is a run of digits whose value fits in 64 bits.
pub open spec fn is_number(s: Seq<char>) -> bool {
    s.len() > 0 && all_digits(s) && decimal_value(s) <= u64::MAX
}

/// The place of the first `": "` in the line.
fn find_colon(line: &Vec<char>) -> (found: Option<usize>)
    ensures
        found matches Some(i) ==> colon_at(line@, i as int),
        found is None ==> forall|j: int| !colon_at(line@, j),
{
    if line.len() < 2 {
        return None;
    }
    let mut i: usize = 0;
    while i < line.len() - 1
        invariant
            line.len() >= 2,
            i <= line.len() - 1,
            forall|j: int| 0 <= j < i ==> !(#[trigger] line[j] == ':' && line[j + 1] == ' '),
        decreases line.len() - i,
    {
        if line[i] == ':' && line[i + 1] == ' ' {
            return Some(i);
        }
        i += 1;
    }
    proof {
        assert forall|j: int| !colon_at(line@, j) by {
            if colon_at(line@, j) {
                assert(!(line[j] == ':' && line[j + 1] == ' '));
            }
        }
    }
    None
}

/// Two places of a first `": "` are the same place.
proof fn lemma_colon_once(line: Seq<char>, i: int, j: int)
    requires
        colon_at(line, i),
        colon_at(line, j),
    ensures
        i == j,
{
    if i < j {
        assert(!(line[i] == ':' && line[i + 1] == ' '));
    } else if j < i {
        assert(!(line[j] == ':' && line[j + 1] == ' '));
    }
}

/// Whether the line writes the equation: it writes one, with this result
/// before the first `": "`, and these values after it.
pub open spec fn writes(line: Seq<char>, raw: RawEquation) -> bool {
    writes_equation(line) && exists|i: int|
        {
            &&& #[trigger] colon_at(line, i)
            &&& raw.result == decimal_value(line.take(i))
            &&& raw.all_values.len() == split_on(values_part(line, i), ' ').len()
            &&& raw.all_values.len() >= 1
            &&& forall|n: int|
                0 <= n < raw.all_values.len() ==> #[trigger] raw.all_values[n] == decimal_value(
                    split_on(values_part(line, i), ' ')[n],
                )
        }
}

/// Whether the equation is the one to try for what was read: the first of
/// the values is its value so far, and the others are to come.
pub open spec fn tries(raw: RawEquation, equation: Equation) -> bool {
    &&& raw.all_values.len() >= 1
    &&& equation.result == raw.result
    &&& equation.first_value == raw.all_values[0]
    &&& equation.other_values@ == raw.all_values@.drop_first()
}

/// Whether the lines write the equations.
pub open spec fn read_as(all: Seq<Seq<char>>, raws: Seq<RawEquation>, equations: Seq<Equation>) -> bool {
    &&& raws.len() == all.len()
    &&& equations.len() == all.len()
    &&& forall|i: int|
        0 <= i < all.len() ==> writes(all[i], #[trigger] raws[i]) && tries(raws[i], equations[i])
}

/// The equation that a line writes, if it writes one.
fn parse_line(line: &Vec<char>) -> (equation: Option<RawEquation>)
    ensures
        equation is Some <==> writes_equation(line@),
        equation matches Some(raw) ==> writes(line@, raw),
{
    let at = match find_colon(line) {
        None => {
            return None;
        },
        Some(at) => at,
    };
    let ghost i = at as int;
    proof {
        assert forall|j: int| colon_at(line@, j) implies j == i by {
            lemma_colon_once(line@, i, j);
        }
    }
    assert(colon_at(line@, i));
    assert(at + 1 < line.len());
    let head = copy_range(line, 0, at);
    assert(head@ == line@.take(i));
    let rest = copy_range(line, at + 2, line.len());
    let tail = match find_colon(&rest) {
        None => rest,
        Some(end) => {
            proof {
                let chosen = choose|j: int| colon_at(rest@, j);
                lemma_colon_once(rest@, end as int, chosen);
            }
            let tail = copy_range(&rest, 0, end);
            assert(tail@ == rest@.take(end as int));
            tail
        },
    };
    assert(tail@ == values_part(line@, i));
    let sum = match parse_decimal(&head) {
        None => {
            return None;
        },
        Some(sum) => sum,
    };
    let pieces = split(&tail, ' ');
    let ghost all = views(pieces@);
    proof {
        crate::text::lemma_split_on_nonempty(tail@, ' ');
    }
    let mut values: Vec<u64> = Vec::new();
    let mut n: usize = 0;
    while n < pieces.len()
        invariant
            n <= pieces.len(),
            all == views(pieces@),
            all == split_on(values_part(line@, i), ' '),
            colon_at(line@, i),
            forall|j: int| colon_at(line@, j) ==> j == i,
            is_number(line@.take(i)),
            values.len() == n,
            forall|t: int| 0 <= t < n ==> is_number(#[trigger] all[t]),
            forall|t: int| 0 <= t < n ==> #[trigger] values[t] == decimal_value(all[t]),
        decreases pieces.len() - n,
    {
        assert(all[n as int] == pieces[n as int]@);
        match parse_decimal(&pieces[n]) {
            None => {
                assert(!is_number(split_on(values_part(line@, i), ' ')[n as int]));
                return None;
            },
            Some(value) => {
                values.push(value);
            },
        }
        n += 1;
    }
    assert(colon_at(line@, i));
    Some(RawEquation { result: sum, all_values: values })
}

impl Equation<'_> {
    /// The equations that the lines of the text write; nothing where a line
    /// writes none.
    pub fn from_string(input: &str) -> (result: Option<Vec<RawEquation>>)
        ensures
            result is Some <==> forall|i: int|
                0 <= i < lines_of(input@).len() ==> writes_equation(#[trigger] lines_of(input@)[i]),
            result matches Some(equations) ==> equations.len() == lines_of(input@).len()
                && forall|i: int|
                0 <= i < equations.len() ==> (#[trigger] equations[i]).all_values.len() >= 1
                    && writes(lines_of(input@)[i], equations[i]),
    {
        let rows = lines(input);
        let ghost all = views(rows@);
        let mut result: Vec<RawEquation> = Vec::new();
        let mut i: usize = 0;
        while i < rows.len()
            invariant
                i <= rows.len(),
                all == views(rows@),
                all == lines_of(input@),
                result.len() == i,
                forall|j: int| 0 <= j < i ==> writes_equation(#[trigger] all[j]),
                forall|j: int|
                    0 <= j < i ==> (#[trigger] result[j]).all_values.len() >= 1 && writes(
                        all[j],
                        result[j],
                    ),
            decreases rows.len() - i,
        {
            assert(all[i as int] == rows[i as int]@);
            match parse_line(&rows[i]) {
                None => {
                    return None;
                },
                Some(parsed) => {
                    result.push(parsed);
                },
            }
            i += 1;
        }
        Some(result)
    }
}

/// The sum of the results of the first `n` equations that can be true.
pub open spec fn calibration(equations: Seq<Equation>, n: nat, enable_concat: bool) -> nat
    decreases n,
{
    if n == 0 {
        0
    } else {
        let last = equations[n - 1];
        calibration(equations, (n - 1) as nat, enable_concat) + if holds(
            last.result as nat,
            last.first_value as nat,
            last.other_values@,
            enable_concat,
        ) {
            last.result as nat
        } else {
            0nat
        }
    }
}

/// Those of the first `n` equations that cannot be true, in their order.
pub open spec fn failing<'a>(equations: Seq<Equation<'a>>, n: nat, enable_concat: bool) -> Seq<
    Equation<'a>,
>
    decreases n,
{
    if n == 0 {
        Seq::empty()
    } else {
        let last = equations[n - 1];
        if holds(last.result as nat, last.first_value as nat, last.other_values@, enable_concat) {
            failing(equations, (n - 1) as nat, enable_concat)
        } else {
            failing(equations, (n - 1) as nat, enable_concat).push(last)
        }
    }
}

/// The sum of the results of the equations that can be true, with the
/// equations that cannot, in their order; nothing where the sum does not
/// fit in 64 bits.
pub fn get_total_calibration_result_and_invalid<'a>(equations: Vec<Equation<'a>>, enable_concat: bool) -> (result:
    Option<(u64, Vec<Equation<'a>>)>)
    ensures
        result is Some <==> calibration(equations@, equations.len() as nat, enable_concat)
            <= u64::MAX,
        result matches Some(found) ==> {
            &&& found.0 == calibration(equations@, equations.len() as nat, enable_concat)
            &&& found.1@ == failing(equations@, equations.len() as nat, enable_concat)
        },
{
    let mut invalid: Vec<Equation<'a>> = Vec::new();
    let mut sum: u64 = 0;
    let ghost all = equations@;
    let n = equations.len();
    let mut stack = equations;
    let mut rest: Vec<Equation<'a>> = Vec::new();
    while stack.len() > 0
        invariant
            rest.len() + stack.len() == n,
            n == all.len(),
            stack@ == all.take(stack.len() as int),
            forall|j: int| 0 <= j < rest.len() ==> #[trigger] rest[j] == all[n - 1 - j],
        decreases stack.len(),
    {
        let ghost before = stack@;
        let last = stack.pop().unwrap();
        assert(last == all[before.len() - 1]);
        rest.push(last);
    }
    let mut i: usize = 0;
    while rest.len() > 0
        invariant
            i + rest.len() == n,
            n == all.len(),
            all == equations@,
            forall|j: int| 0 <= j < rest.len() ==> #[trigger] rest[j] == all[n - 1 - j],
            sum == calibration(all, i as nat, enable_concat),
            invalid@ == failing(all, i as nat, enable_concat),
        decreases rest.len(),
    {
        let ghost left = rest@;
        let equation = rest.pop().unwrap();
        assert(equation == left[left.len() - 1]);
        assert(equation == all[i as int]);
        proof {
            lemma_calibration_grows(all, (i + 1) as nat, n as nat, enable_concat);
        }
        if equation.can_be_true(enable_concat) {
            sum = match sum.checked_add(equation.result) {
                None => {
                    return None;
                },
                Some(sum) => sum,
            };
        } else {
            invalid.push(equation);
        }
        i += 1;
    }
    Some((sum, invalid))
}

proof fn lemma_calibration_grows(equations: Seq<Equation>, n: nat, more: nat, enable_concat: bool)
    requires
        n <= more,
    ensures
        calibration(equations, n, enable_concat) <= calibration(equations, more, enable_concat),
    decreases more,
{
    if n < more {
        lemma_calibration_grows(equations, n, (more - 1) as nat, enable_concat);
    }
}

/// Whether two equations have the same result and the same values.
pub open spec fn same_equation(one: Equation, other: Equation) -> bool {
    one.result == other.result && one.first_value == other.first_value && one.other_values@
        == other.other_values@
}

/// Whether the equations of two lists are the same, one by one.
pub open spec fn same_equations(one: Seq<Equation>, other: Seq<Equation>) -> bool {
    one.len() == other.len() && forall|i: int|
        0 <= i < one.len() ==> same_equation(#[trigger] one[i], other[i])
}

/// The same equations are calibrated to the same sum, and the same of
/// them fail.
pub proof fn lemma_same_calibration(one: Seq<Equation>, other: Seq<Equation>, n: nat, enable_concat: bool)
    requires
        same_equations(one, other),
        n <= one.len(),
    ensures
        calibration(one, n, enable_concat) == calibration(other, n, enable_concat),
        same_equations(failing(one, n, enable_concat), failing(other, n, enable_concat)),
    decreases n,
{
    if n > 0 {
        lemma_same_calibration(one, other, (n - 1) as nat, enable_concat);
        assert(same_equation(one[n - 1], other[n - 1]));
    }
}

/// A line writes one equation.
pub proof fn lemma_one_equation(line: Seq<char>, one: RawEquation, other: RawEquation)
    requires
        writes(line, one),
        writes(line, other),
    ensures
        one.result == other.result,
        one.all_values@ == other.all_values@,
{
    let i = choose|i: int|
        {
            &&& #[trigger] colon_at(line, i)
            &&& one.result == decimal_value(line.take(i))
            &&& one.all_values.len() == split_on(values_part(line, i), ' ').len()
            &&& one.all_values.len() >= 1
            &&& forall|n: int|
                0 <= n < one.all_values.len() ==> #[trigger] one.all_values[n] == decimal_value(
                    split_on(values_part(line, i), ' ')[n],
                )
        };
    let j = choose|j: int|
        {
            &&& #[trigger] colon_at(line, j)
            &&& other.result == decimal_value(line.take(j))
            &&& other.all_values.len() == split_on(values_part(line, j), ' ').len()
            &&& other.all_values.len() >= 1
            &&& forall|n: int|
                0 <= n < other.all_values.len() ==> #[trigger] other.all_values[n] == decimal_value(
                    split_on(values_part(line, j), ' ')[n],
                )
        };
    lemma_colon_once(line, i, j);
    assert(one.all_values@ =~= other.all_values@);
}

/// Whether the sums of the equations fit in 64 bits: the sum of the
/// results of those that can be true, the sum of the results of the others
/// that can be true with `||`, and both together.
pub open spec fn sums_fit(equations: Seq<Equation>) -> bool {
    let failed = failing(equations, equations.len(), false);
    calibration(equations, equations.len(), false) + calibration(failed, failed.len(), true)
        <= u64::MAX
}

/// The sum of the results of the equations that can be true with `+` and
/// `*`, and the sum of the results of those that can be true with `+`, `*`
/// and `||`; nothing where a line writes no equation, or where a sum does
/// not fit in 64 bits.
pub fn solve(input: &str) -> (result: Option<(u64, u64)>)
    ensures
        result is Some <==> exists|raws: Seq<RawEquation>, equations: Seq<Equation>| #[trigger]
            read_as(lines_of(input@), raws, equations) && sums_fit(equations),
        result matches Some(found) ==> exists|raws: Seq<RawEquation>, equations: Seq<Equation>|
            {
                let failed = failing(equations, equations.len(), false);
                &&& #[trigger] read_as(lines_of(input@), raws, equations)
                &&& found.0 == calibration(equations, equations.len(), false)
                &&& found.1 == found.0 + calibration(failed, failed.len(), true)
            },
{
    let ghost all = lines_of(input@);
    let raw_equations = match Equation::from_string(input) {
        None => {
            proof {
                assert forall|raws: Seq<RawEquation>, others: Seq<Equation>| !#[trigger] read_as(
                    all,
                    raws,
                    others,
                ) by {
                    if read_as(all, raws, others) {
                        assert forall|i: int| 0 <= i < all.len() implies writes_equation(
                            #[trigger] all[i],
                        ) by {
                            assert(writes(all[i], raws[i]));
                        }
                    }
                }
            }
            return None;
        },
        Some(raw_equations) => raw_equations,
    };
    let mut equations: Vec<Equation> = Vec::new();
    let mut i: usize = 0;
    while i < raw_equations.len()
        invariant
            i <= raw_equations.len(),
            equations.len() == i,
            forall|j: int|
                0 <= j < raw_equations.len() ==> (#[trigger] raw_equations[j]).all_values.len() >= 1,
            forall|j: int| 0 <= j < i ==> tries(raw_equations[j], #[trigger] equations[j]),
        decreases raw_equations.len() - i,
    {
        equations.push(Equation::from_raw(&raw_equations[i]));
        i += 1;
    }
    let ghost tried = equations@;
    let ghost failed = failing(tried, tried.len(), false);
    proof {
        assert(read_as(all, raw_equations@, tried));
        assert forall|raws: Seq<RawEquation>, others: Seq<Equation>| #[trigger]
            read_as(all, raws, others) implies sums_fit(others) == sums_fit(tried) by {
            assert forall|i: int| 0 <= i < tried.len() implies same_equation(
                #[trigger] others[i],
                tried[i],
            ) by {
                assert(writes(all[i], raws[i]) && tries(raws[i], others[i]));
                assert(writes(all[i], raw_equations[i]) && tries(raw_equations[i], tried[i]));
                lemma_one_equation(all[i], raws[i], raw_equations[i]);
            }
            lemma_same_calibration(others, tried, tried.len(), false);
            let others_failed = failing(others, others.len(), false);
            lemma_same_calibration(others_failed, failed, failed.len(), true);
        }
        lemma_failing_is_shorter(tried, tried.len(), false);
    }
    let (part1, invalid_eq) = match get_total_calibration_result_and_invalid(equations, false) {
        None => {
            return None;
        },
        Some(found) => found,
    };
    let (part2, _) = match get_total_calibration_result_and_invalid(invalid_eq, true) {
        None => {
            return None;
        },
        Some(found) => found,
    };
    match part1.checked_add(part2) {
        None => None,
        Some(both) => {
            let result = Some((part1, both));
            proof {
                assert(read_as(all, raw_equations@, tried));
                assert(result->Some_0.0 == calibration(tried, tried.len(), false));
                assert(result->Some_0.1 == result->Some_0.0 + calibration(failed, failed.len(), true));
                assert(sums_fit(tried));
            }
            result
        },
    }
}

/// No more equations fail than there are.
proof fn lemma_failing_is_shorter(equations: Seq<Equation>, n: nat, enable_concat: bool)
    requires
        n <= equations.len(),
    ensures
        failing(equations, n, enable_concat).len() <= n,
    decreases n,
{
    if n > 0 {
        lemma_failing_is_shorter(equations, (n - 1) as nat, enable_concat);
    }
}

} // verus!
