//! A system of logic gates on wires: a gate takes the bits of two wires and
//! puts their conjunction, disjunction or difference on a third.
//!
//! The wires whose names start with `z` make up the number that the system
//! puts out. A wire holds its bit in a byte.

use crate::text::{
    begins_with, comes_first, copy_range, decimal_of, is_before, lines, lines_of, same_chars,
    starts_with, to_decimal, trim, trimmed, views,
};
use std::collections::VecDeque;
use vstd::prelude::*;

verus! {

/// The bit of a wire.
pub type Bit = u8;

pub const TRUE: Bit = 1;

pub const FALSE: Bit = 0;

/// What a gate does with its two bits.
#[derive(Clone, Copy, Debug)]
pub enum Operation {
    AND,
    OR,
    XOR,
}

/// A wire with its bit.
pub struct Wire {
    pub name: Vec<char>,
    pub bit: Bit,
}

/// The wires whose bits are known. Of two entries with the same name the
/// later counts.
pub struct Wires {
    pub entries: Vec<Wire>,
}

/// A gate: the wires that it takes its bits from, what it does with them,
/// and the wire that it puts the result on; for a wire of the output, whose
/// name starts with `z`, the number that follows the `z`.
pub struct Gate {
    pub first_input: Vec<char>,
    pub second_input: Vec<char>,
    pub operation: Operation,
    pub output: Vec<char>,
    pub is_z: bool,
    pub output_id: usize,
}

/// What a list of wires holds: the name and the bit of each.
pub open spec fn pairs(entries: Seq<Wire>) -> Seq<(Seq<char>, Bit)> {
    Seq::new(entries.len(), |i: int| (entries[i].name@, entries[i].bit))
}

/// The bit of the wire `name`, if it is known.
pub open spec fn known(wires: Seq<(Seq<char>, Bit)>, name: Seq<char>) -> Option<Bit>
    decreases wires.len(),
{
    if wires.len() == 0 {
        None
    } else if wires.last().0 == name {
        Some(wires.last().1)
    } else {
        known(wires.drop_last(), name)
    }
}

/// The wires with `bit` in the place of the bit of the last entry for the
/// wire `name`, which there is.
pub open spec fn replaced(wires: Seq<(Seq<char>, Bit)>, name: Seq<char>, bit: Bit) -> Seq<
    (Seq<char>, Bit),
>
    decreases wires.len(),
{
    if wires.len() == 0 {
        wires
    } else if wires.last().0 == name {
        wires.drop_last().push((name, bit))
    } else {
        replaced(wires.drop_last(), name, bit).push(wires.last())
    }
}

/// The wires once `bit` is the bit of the wire `name`: the last entry for
/// the wire holds the bit, or a new entry at the end where there was none.
pub open spec fn put(wires: Seq<(Seq<char>, Bit)>, name: Seq<char>, bit: Bit) -> Seq<
    (Seq<char>, Bit),
> {
    if known(wires, name) is Some {
        replaced(wires, name, bit)
    } else {
        wires.push((name, bit))
    }
}

proof fn lemma_replaced(wires: Seq<(Seq<char>, Bit)>, name: Seq<char>, bit: Bit, other: Seq<char>)
    requires
        known(wires, name) is Some,
    ensures
        known(replaced(wires, name, bit), other) == if other == name {
            Some(bit)
        } else {
            known(wires, other)
        },
        replaced(wires, name, bit).len() == wires.len(),
    decreases wires.len(),
{
    if wires.len() > 0 {
        if wires.last().0 == name {
            assert(wires.drop_last().push((name, bit)).drop_last() == wires.drop_last());
        } else {
            lemma_replaced(wires.drop_last(), name, bit, other);
            assert(replaced(wires.drop_last(), name, bit).push(wires.last()).drop_last()
                == replaced(wires.drop_last(), name, bit));
        }
    }
}

/// After `put` the wire has its new bit, and every other wire the bit that
/// it had.
pub proof fn lemma_put(wires: Seq<(Seq<char>, Bit)>, name: Seq<char>, bit: Bit, other: Seq<char>)
    ensures
        known(put(wires, name, bit), other) == if other == name {
            Some(bit)
        } else {
            known(wires, other)
        },
{
    if known(wires, name) is Some {
        lemma_replaced(wires, name, bit, other);
    } else {
        assert(wires.push((name, bit)).drop_last() == wires);
    }
}

impl Wires {
    /// What the wires hold.
    pub open spec fn view(&self) -> Seq<(Seq<char>, Bit)> {
        pairs(self.entries@)
    }

    /// No wires.
    pub fn new() -> (wires: Wires)
        ensures
            wires@ == Seq::<(Seq<char>, Bit)>::empty(),
    {
        Wires { entries: Vec::new() }
    }

    /// The number of entries.
    pub fn len(&self) -> (count: usize)
        ensures
            count == self@.len(),
    {
        self.entries.len()
    }

    /// The bit of the wire `name`, if it is known.
    pub fn get(&self, name: &Vec<char>) -> (bit: Option<Bit>)
        ensures
            bit == known(self@, name@),
    {
        let mut i: usize = self.entries.len();
        assert(self@.take(i as int) == self@);
        while i > 0
            invariant
                i <= self.entries.len(),
                known(self@, name@) == known(self@.take(i as int), name@),
            decreases i,
        {
            proof {
                assert(self@.take(i as int).last() == self@[i - 1]);
                assert(self@.take(i as int).drop_last() == self@.take(i - 1));
            }
            if same_chars(&self.entries[i - 1].name, name) {
                return Some(self.entries[i - 1].bit);
            }
            i -= 1;
        }
        None
    }

    /// Makes `bit` the bit of the wire `name`.
    pub fn insert(&mut self, name: Vec<char>, bit: Bit)
        ensures
            final(self)@ == put(old(self)@, name@, bit),
    {
        let ghost before = self@;
        let mut i: usize = self.entries.len();
        assert(before.take(i as int) == before);
        assert(before.skip(i as int) == Seq::<(Seq<char>, Bit)>::empty());
        while i > 0
            invariant
                i <= self.entries.len(),
                self@ == before,
                before == old(self)@,
                known(before, name@) == known(before.take(i as int), name@),
                replaced(before, name@, bit) == replaced(before.take(i as int), name@, bit)
                    + before.skip(i as int),
            decreases i,
        {
            proof {
                let head = before.take(i as int);
                assert(head.last() == before[i - 1]);
                assert(head.drop_last() == before.take(i - 1));
                assert(before.skip(i - 1) == seq![before[i - 1]] + before.skip(i as int));
            }
            if same_chars(&self.entries[i - 1].name, &name) {
                self.entries[i - 1].bit = bit;
                proof {
                    assert(before[i - 1].0 == name@);
                    assert(known(before.take(i as int), name@) is Some);
                    assert(replaced(before.take(i as int), name@, bit) == before.take(i - 1).push(
                        (name@, bit),
                    ));
                    assert(self@ == before.update(i - 1, (name@, bit)));
                    assert(self@ == before.take(i - 1).push((name@, bit)) + before.skip(i as int));
                    assert(known(before, name@) is Some);
                    assert(put(before, name@, bit) == replaced(before, name@, bit));
                    assert(self@ == put(before, name@, bit));
                    assert(before == old(self)@);
                }
                return;
            }
            proof {
                assert(replaced(before.take(i - 1), name@, bit).push(before[i - 1]) + before.skip(
                    i as int,
                ) == replaced(before.take(i - 1), name@, bit) + before.skip(i - 1));
            }
            i -= 1;
        }
        self.entries.push(Wire { name, bit });
        proof {
            assert(before.take(0) == Seq::<(Seq<char>, Bit)>::empty());
            assert(self@ == before.push((name@, bit)));
        }
    }
}

/// The number `value` halved `times` times, each time rounded down.
pub open spec fn halved(value: u64, times: nat) -> u64
    decreases times,
{
    if times == 0 {
        value
    } else {
        halved(value, (times - 1) as nat) / 2
    }
}

/// The name of the wire of number `i` of the number `c`: the character, and
/// the number in at least two digits.
pub open spec fn wire_name(c: char, i: nat) -> Seq<char> {
    if i < 10 {
        seq![c, '0'] + decimal_of(i)
    } else {
        seq![c] + decimal_of(i)
    }
}

/// The wires of the lowest `n` bits of `value` under the names of the number
/// `c`, put among `wires`.
pub open spec fn with_value(wires: Seq<(Seq<char>, Bit)>, c: char, value: u64, n: nat) -> Seq<
    (Seq<char>, Bit),
>
    decreases n,
{
    if n == 0 {
        wires
    } else {
        put(
            with_value(wires, c, value, (n - 1) as nat),
            wire_name(c, (n - 1) as nat),
            (halved(value, (n - 1) as nat) % 2) as Bit,
        )
    }
}

/// Puts the lowest `number_of_bits + 1` bits of `value` among the wires,
/// under the names of the number `char`.
pub fn add_value_to_wires(wires: &mut Wires, char: char, value: u64, number_of_bits: usize)
    requires
        number_of_bits < usize::MAX,
    ensures
        final(wires)@ == with_value(old(wires)@, char, value, (number_of_bits + 1) as nat),
{
    let mut value = value;
    let ghost whole = value;
    let mut i: usize = 0;
    while i < number_of_bits + 1
        invariant
            i <= number_of_bits + 1,
            number_of_bits < usize::MAX,
            value == halved(whole, i as nat),
            wires@ == with_value(old(wires)@, char, whole, i as nat),
        decreases number_of_bits + 1 - i,
    {
        let bit = (value % 2) as Bit;
        value = value / 2;
        let mut key: Vec<char> = Vec::new();
        key.push(char);
        if i < 10 {
            key.push('0');
        }
        let digits = to_decimal(i as u64);
        crate::text::append(&mut key, &digits);
        assert(key@ == wire_name(char, i as nat));
        wires.insert(key, bit);
        i += 1;
    }
}

/// The wires that hold the lowest `number_of_bits + 1` bits of `value`
/// under the names of the number `char`.
pub fn write_value_to_wires(char: char, value: u64, number_of_bits: usize) -> (wires: Wires)
    requires
        number_of_bits < usize::MAX,
    ensures
        wires@ == with_value(
            Seq::<(Seq<char>, Bit)>::empty(),
            char,
            value,
            (number_of_bits + 1) as nat,
        ),
{
    let mut wires = Wires::new();
    add_value_to_wires(&mut wires, char, value, number_of_bits);
    wires
}

/// Whether the wire at place `i` belongs to the number whose wires start
/// with `prefix`.
pub open spec fn belongs(wires: Seq<(Seq<char>, Bit)>, prefix: Seq<char>, i: int) -> bool {
    begins_with(wires[i].0, prefix)
}

/// The place of the bit of the wire at place `i` in its number: the number
/// of wires of the number among the first `n` whose names come before its
/// own.
pub open spec fn place_of(entries: Seq<(Seq<char>, Bit)>, prefix: Seq<char>, i: int, n: nat) -> nat
    decreases n,
{
    if n == 0 {
        0
    } else {
        place_of(entries, prefix, i, (n - 1) as nat) + if belongs(entries, prefix, n - 1)
            && comes_first(entries[n - 1].0, entries[i].0) {
            1nat
        } else {
            0nat
        }
    }
}

/// Two to the power of `k`, as far as 64 bits hold it: nothing from the
/// 64th power on.
pub open spec fn weight(k: nat) -> u64
    decreases k,
{
    if k == 0 {
        1
    } else if weight((k - 1) as nat) >= 0x8000_0000_0000_0000 {
        0
    } else {
        (weight((k - 1) as nat) * 2) as u64
    }
}

/// The sum of two numbers of 64 bits, without what does not fit.
pub open spec fn wrapped_sum(a: u64, b: u64) -> u64 {
    ((a + b) % 0x1_0000_0000_0000_0000) as u64
}

/// The product of two numbers of 64 bits, without what does not fit.
pub open spec fn wrapped_product(a: u64, b: u64) -> u64 {
    ((a * b) % 0x1_0000_0000_0000_0000) as u64
}

/// The number that the first `n` wires make up where they belong to the
/// number `prefix`: each bit counts at its place, and what does not fit in
/// 64 bits is left out.
pub open spec fn number_of(entries: Seq<(Seq<char>, Bit)>, prefix: Seq<char>, n: nat) -> u64
    decreases n,
{
    if n == 0 {
        0
    } else if belongs(entries, prefix, n - 1) {
        wrapped_sum(
            number_of(entries, prefix, (n - 1) as nat),
            wrapped_product(
                entries[n - 1].1 as u64,
                weight(place_of(entries, prefix, n - 1, entries.len())),
            ),
        )
    } else {
        number_of(entries, prefix, (n - 1) as nat)
    }
}

/// Two to the power of `k`, as far as 64 bits hold it.
fn weight_of(k: usize) -> (w: u64)
    ensures
        w == weight(k as nat),
{
    let mut w: u64 = 1;
    let mut i: usize = 0;
    while i < k
        invariant
            i <= k,
            w == weight(i as nat),
        decreases k - i,
    {
        if w >= 0x8000_0000_0000_0000 {
            w = 0;
        } else {
            w = w * 2;
        }
        i += 1;
    }
    w
}

/// The number that the wires whose names start with `prefix` make up: the
/// wire whose name comes first holds the lowest bit.
pub fn read_value_from_wires(wires: &Wires, prefix: &Vec<char>) -> (result: u64)
    ensures
        result == number_of(wires@, prefix@, wires@.len()),
{
    let mut result: u64 = 0;
    let mut i: usize = 0;
    while i < wires.entries.len()
        invariant
            i <= wires.entries.len(),
            result == number_of(wires@, prefix@, i as nat),
        decreases wires.entries.len() - i,
    {
        let wire = &wires.entries[i];
        if starts_with(&wire.name, prefix) {
            let mut place: usize = 0;
            let mut j: usize = 0;
            while j < wires.entries.len()
                invariant
                    j <= wires.entries.len(),
                    i < wires.entries.len(),
                    wire == wires.entries[i as int],
                    place <= j,
                    place == place_of(wires@, prefix@, i as int, j as nat),
                decreases wires.entries.len() - j,
            {
                let other = &wires.entries[j];
                if starts_with(&other.name, prefix) && is_before(&other.name, &wire.name) {
                    place += 1;
                }
                j += 1;
            }
            let value = (wire.bit as u64).wrapping_mul(weight_of(place));
            result = result.wrapping_add(value);
        }
        i += 1;
    }
    result
}

/// The number that the characters write when each stands for its number
/// less that of `0`: a digit stands for itself, and a character after the
/// digits for more than 9. Nothing where a character comes before `0`, or
/// the number does not fit.
pub open spec fn rough_value(digits: Seq<char>) -> Option<nat>
    decreases digits.len(),
{
    if digits.len() == 0 {
        Some(0nat)
    } else {
        let last = digits.last() as int - '0' as int;
        match rough_value(digits.drop_last()) {
            None => None,
            Some(head) => {
                let whole = head * 10 + last;
                if last < 0 || usize::MAX < whole {
                    None
                } else {
                    Some(whole as nat)
                }
            },
        }
    }
}

/// The number that the characters write.
pub fn parse_to_usize(digits: &Vec<char>) -> (result: Option<usize>)
    ensures
        match result {
            Some(value) => rough_value(digits@) == Some(value as nat),
            None => rough_value(digits@) is None,
        },
{
    let mut result: usize = 0;
    let mut i: usize = 0;
    assert(digits@.take(0) == Seq::<char>::empty());
    while i < digits.len()
        invariant
            i <= digits.len(),
            rough_value(digits@.take(i as int)) == Some(result as nat),
        decreases digits.len() - i,
    {
        let c = crate::text::char_at(digits, i);
        proof {
            assert(digits@.take(i + 1).drop_last() == digits@.take(i as int));
            assert(digits@.take(i + 1).last() == c);
            lemma_rough_value_stays_none(digits@, i + 1);
        }
        if '0' > c {
            return None;
        }
        let d = (c as u32 - '0' as u32) as usize;
        if result > (usize::MAX - d) / 10 {
            return None;
        }
        result = result * 10 + d;
        i += 1;
    }
    assert(digits@.take(i as int) == digits@);
    Some(result)
}

proof fn lemma_rough_value_stays_none(digits: Seq<char>, n: int)
    requires
        0 <= n <= digits.len(),
    ensures
        rough_value(digits.take(n)) is None ==> rough_value(digits) is None,
    decreases digits.len() - n,
{
    if n == digits.len() {
        assert(digits.take(n) == digits);
    } else {
        lemma_rough_value_stays_none(digits, n + 1);
        assert(digits.take(n + 1).drop_last() == digits.take(n));
    }
}

/// What a gate puts out once both its bits are known.
pub open spec fn strict(gate: Gate, wires: Seq<(Seq<char>, Bit)>) -> Option<Bit> {
    match (known(wires, gate.first_input@), known(wires, gate.second_input@)) {
        (Some(a), Some(b)) => Some(
            match gate.operation {
                Operation::AND => a & b,
                Operation::OR => a | b,
                Operation::XOR => a ^ b,
            },
        ),
        _ => None,
    }
}

/// What a gate puts out as soon as the bits that are known settle it: a
/// conjunction is settled by one bit that is 0, a disjunction by one that
/// is 1.
pub open spec fn short_circuit(gate: Gate, wires: Seq<(Seq<char>, Bit)>) -> Option<Bit> {
    let a = known(wires, gate.first_input@);
    let b = known(wires, gate.second_input@);
    match gate.operation {
        Operation::AND => if a == Some(FALSE) || b == Some(FALSE) {
            Some(FALSE)
        } else if a == Some(TRUE) && b == Some(TRUE) {
            Some(TRUE)
        } else {
            None
        },
        Operation::OR => if a == Some(TRUE) || b == Some(TRUE) {
            Some(TRUE)
        } else if a == Some(FALSE) && b == Some(FALSE) {
            Some(FALSE)
        } else {
            None
        },
        Operation::XOR => match (a, b) {
            (Some(x), Some(y)) => Some(x ^ y),
            _ => None,
        },
    }
}

impl Gate {
    /// What the name of an output says of its gate: whether it is a wire of
    /// the number that the system puts out, and which.
    pub open spec fn names(output: Seq<char>, is_z: bool, output_id: usize) -> bool {
        &&& output.len() >= 1
        &&& is_z == (output[0] == 'z')
        &&& is_z ==> output.len() >= 3 && rough_value(output.subrange(1, 3)) == Some(output_id as nat)
    }

    /// Makes `value` the wire on which this gate puts its result. Tells
    /// whether it could: a name may not be empty, and the name of a wire of
    /// the output must have two characters for its number after the `z`.
    pub fn set_output(&mut self, value: Vec<char>) -> (set: bool)
        ensures
            set <==> value@.len() >= 1 && (value@[0] == 'z' ==> value@.len() >= 3 && rough_value(
                value@.subrange(1, 3),
            ) is Some),
            final(self).first_input == old(self).first_input,
            final(self).second_input == old(self).second_input,
            final(self).operation == old(self).operation,
            set ==> final(self).output@ == value@ && (final(self).is_z ==> Gate::names(
                value@,
                final(self).is_z,
                final(self).output_id,
            )) && final(self).is_z == (value@[0] == 'z') && value@.len() >= 1,
            set ==> (!final(self).is_z ==> final(self).output_id == old(self).output_id),
            !set ==> *final(self) == *old(self),
    {
        if value.len() == 0 {
            return false;
        }
        let is_z = value[0] == 'z';
        if is_z {
            if value.len() < 3 {
                return false;
            }
            let digits = copy_range(&value, 1, 3);
            match parse_to_usize(&digits) {
                None => {
                    return false;
                },
                Some(id) => {
                    self.output_id = id;
                },
            }
        }
        self.output = value;
        self.is_z = is_z;
        true
    }

    /// What this gate puts out once both its bits are known.
    pub fn process_strict(&self, wires: &Wires) -> (result: Option<Bit>)
        ensures
            result == strict(*self, wires@),
    {
        let wire_a = match wires.get(&self.first_input) {
            None => {
                return None;
            },
            Some(bit) => bit,
        };
        let wire_b = match wires.get(&self.second_input) {
            None => {
                return None;
            },
            Some(bit) => bit,
        };
        let result = match self.operation {
            Operation::AND => wire_a & wire_b,
            Operation::OR => wire_a | wire_b,
            Operation::XOR => wire_a ^ wire_b,
        };
        Some(result)
    }

    /// What this gate puts out as soon as the bits that are known settle it.
    pub fn process_with_short_circuit(&self, wires: &Wires) -> (result: Option<Bit>)
        ensures
            result == short_circuit(*self, wires@),
    {
        let wire_a = wires.get(&self.first_input);
        let wire_b = wires.get(&self.second_input);
        match self.operation {
            Operation::AND => match (wire_a, wire_b) {
                (Some(0), _) => Some(FALSE),
                (_, Some(0)) => Some(FALSE),
                (Some(1), Some(1)) => Some(TRUE),
                _ => None,
            },
            Operation::OR => match (wire_a, wire_b) {
                (Some(1), _) => Some(TRUE),
                (_, Some(1)) => Some(TRUE),
                (Some(0), Some(0)) => Some(FALSE),
                _ => None,
            },
            Operation::XOR => match (wire_a, wire_b) {
                (Some(a), Some(b)) => Some(a ^ b),
                _ => None,
            },
        }
    }
}

/// The state of a system that is being settled: the gates that are still
/// to be settled, by their numbers and in their order, the wires that are
/// known, and the number of gates in a row that could not be settled.
pub struct Settling {
    pub queue: Seq<int>,
    pub wires: Seq<(Seq<char>, Bit)>,
    pub waiting: nat,
}

/// The wires once the gates have been settled in the order of the queue,
/// each as soon as the known bits settle it, and whether all wires of the
/// output were settled then. A gate that cannot be settled yet goes to the
/// end of the queue; the work is given up once every gate left has been
/// tried in vain.
pub open spec fn settled(gates: Seq<Gate>, state: Settling, remaining: nat) -> (bool, Seq<
    (Seq<char>, Bit),
>)
    decreases state.queue.len(), state.queue.len() - state.waiting,
{
    if state.queue.len() == 0 || state.waiting >= state.queue.len() {
        (remaining == 0, state.wires)
    } else {
        let gate = gates[state.queue[0]];
        match short_circuit(gate, state.wires) {
            Some(value) => {
                let left = if gate.is_z && remaining > 0 {
                    (remaining - 1) as nat
                } else {
                    remaining
                };
                let wires = put(state.wires, gate.output@, value);
                if left == 0 {
                    (true, wires)
                } else {
                    settled(
                        gates,
                        Settling { queue: state.queue.drop_first(), wires, waiting: 0 },
                        left,
                    )
                }
            },
            None => settled(
                gates,
                Settling {
                    queue: state.queue.drop_first().push(state.queue[0]),
                    wires: state.wires,
                    waiting: state.waiting + 1,
                },
                remaining,
            ),
        }
    }
}

/// The number of the first `n` gates that put out a wire of the output.
pub open spec fn outputs(gates: Seq<Gate>, n: nat) -> nat
    decreases n,
{
    if n == 0 {
        0
    } else {
        outputs(gates, (n - 1) as nat) + if gates[n - 1].is_z {
            1nat
        } else {
            0nat
        }
    }
}

/// The numbers from 0 up to `n`.
pub open spec fn numbers(n: nat) -> Seq<int> {
    Seq::new(n, |i: int| i)
}

/// A copy of the wires.
fn copy_wires(wires: &Wires) -> (copy: Wires)
    ensures
        copy@ == wires@,
{
    let mut entries: Vec<Wire> = Vec::new();
    let mut i: usize = 0;
    while i < wires.entries.len()
        invariant
            i <= wires.entries.len(),
            pairs(entries@) == wires@.take(i as int),
        decreases wires.entries.len() - i,
    {
        let wire = &wires.entries[i];
        let name = copy_range(&wire.name, 0, wire.name.len());
        assert(name@ == wire.name@);
        let ghost before = pairs(entries@);
        entries.push(Wire { name, bit: wire.bit });
        assert(pairs(entries@) == before.push((wire.name@, wire.bit)));
        assert(wires@.take(i + 1) == wires@.take(i as int).push(wires@[i as int]));
        i += 1;
    }
    assert(wires@.take(i as int) == wires@);
    Wires { entries }
}

/// A queue of the numbers of all gates.
fn all_gates(count: usize) -> (queue: VecDeque<usize>)
    ensures
        queue@.len() == count,
        forall|i: int| 0 <= i < count ==> #[trigger] queue@[i] == i,
{
    let mut queue: VecDeque<usize> = VecDeque::new();
    let mut i: usize = 0;
    while i < count
        invariant
            i <= count,
            queue@.len() == i,
            forall|j: int| 0 <= j < i ==> #[trigger] queue@[j] == j,
        decreases count - i,
    {
        queue.push_back(i);
        i += 1;
    }
    queue
}

/// What a queue holds, as numbers.
pub open spec fn queue_view(queue: Seq<usize>) -> Seq<int> {
    Seq::new(queue.len(), |i: int| queue[i] as int)
}

/// The number that the system puts out on its wires `z` once its gates are
/// settled, each as soon as the known bits settle it; nothing where some
/// wire of the output cannot be settled.
pub fn process_logic_system(wires: &Wires, gates: &Vec<Gate>) -> (result: Option<u64>)
    ensures
        result == system_output(gates@, wires@),
{
    let mut known_wires = copy_wires(wires);
    let mut remaining_outputs: usize = 0;
    let mut n: usize = 0;
    while n < gates.len()
        invariant
            n <= gates.len(),
            remaining_outputs <= n,
            remaining_outputs == outputs(gates@, n as nat),
        decreases gates.len() - n,
    {
        if gates[n].is_z {
            remaining_outputs += 1;
        }
        n += 1;
    }
    let mut remaining_gates = all_gates(gates.len());
    let mut waiting: usize = 0;
    let ghost whole = settled(
        gates@,
        Settling { queue: numbers(gates.len() as nat), wires: wires@, waiting: 0 },
        outputs(gates@, gates.len() as nat),
    );
    assert(queue_view(remaining_gates@) == numbers(gates.len() as nat));
    let mut done = false;
    while remaining_gates.len() > 0 && waiting < remaining_gates.len() && !done
        invariant
            forall|i: int| 0 <= i < remaining_gates@.len() ==> #[trigger] remaining_gates@[i] < gates.len(),
            waiting <= remaining_gates@.len(),
            !done ==> whole == settled(
                gates@,
                Settling {
                    queue: queue_view(remaining_gates@),
                    wires: known_wires@,
                    waiting: waiting as nat,
                },
                remaining_outputs as nat,
            ),
            done ==> whole == (true, known_wires@) && remaining_outputs == 0,
        decreases remaining_gates@.len(), remaining_gates@.len() - waiting, if done { 0int } else { 1int },
    {
        let ghost before = remaining_gates@;
        let index = remaining_gates.pop_front().unwrap();
        assert(index == before[0]);
        assert(queue_view(before)[0] == index);
        assert(queue_view(remaining_gates@) == queue_view(before).drop_first());
        let gate = &gates[index];
        match gate.process_with_short_circuit(&known_wires) {
            Some(value) => {
                if gate.is_z && remaining_outputs > 0 {
                    remaining_outputs -= 1;
                }
                let output = copy_range(&gate.output, 0, gate.output.len());
                assert(output@ == gate.output@);
                known_wires.insert(output, value);
                waiting = 0;
                if remaining_outputs == 0 {
                    done = true;
                }
            },
            None => {
                remaining_gates.push_back(index);
                assert(queue_view(remaining_gates@) == queue_view(before).drop_first().push(
                    index as int,
                ));
                waiting += 1;
            },
        }
    }
    if remaining_outputs == 0 {
        let mut prefix: Vec<char> = Vec::new();
        prefix.push('z');
        assert(prefix@ == seq!['z']);
        Some(read_value_from_wires(&known_wires, &prefix))
    } else {
        None
    }
}

/// The number that a system puts out: that of the wires `z` once the gates
/// are settled, if all wires of the output are settled then.
pub open spec fn system_output(gates: Seq<Gate>, wires: Seq<(Seq<char>, Bit)>) -> Option<u64> {
    let end = settled(
        gates,
        Settling { queue: numbers(gates.len()), wires, waiting: 0 },
        outputs(gates, gates.len()),
    );
    if end.0 {
        Some(number_of(end.1, seq!['z'], end.1.len()))
    } else {
        None
    }
}

/// The two numbers with which the sum of `number_of_bits` bits is tried:
/// 0 and 1 for one bit, and else the numbers below and above the highest
/// bit.
pub open spec fn values_to_test(number_of_bits: nat) -> (u64, u64) {
    if number_of_bits == 1 {
        (0, 1)
    } else {
        ((weight((number_of_bits - 1) as nat) - 1) as u64, (weight((number_of_bits - 1) as nat) + 1) as u64)
    }
}

/// Up to the 63rd power, the weight is the power of two.
proof fn lemma_weight_bound(k: nat)
    requires
        k <= 62,
    ensures
        weight(k) == vstd::arithmetic::power2::pow2(k),
        1 <= weight(k) <= 0x4000_0000_0000_0000,
    decreases k,
{
    vstd::arithmetic::power2::lemma2_to64();
    vstd::arithmetic::power2::lemma_pow2_unfold(64);
    vstd::arithmetic::power2::lemma_pow2_unfold(63);
    if k > 0 {
        lemma_weight_bound((k - 1) as nat);
        vstd::arithmetic::power2::lemma_pow2_unfold(k);
        if k < 62 {
            vstd::arithmetic::power2::lemma_pow2_strictly_increases(k, 62);
        }
        if k - 1 < 61 {
            vstd::arithmetic::power2::lemma_pow2_strictly_increases((k - 1) as nat, 61);
        }
    }
}

/// The two numbers with which the sum of `number_of_bits` bits is tried.
pub fn get_values_to_test(number_of_bits: usize) -> (values: [u64; 2])
    requires
        1 <= number_of_bits <= 62,
    ensures
        values[0] == values_to_test(number_of_bits as nat).0,
        values[1] == values_to_test(number_of_bits as nat).1,
{
    if number_of_bits == 1 {
        [0, 1]
    } else {
        proof {
            lemma_weight_bound((number_of_bits - 1) as nat);
        }
        let base = weight_of(number_of_bits - 1);
        [base - 1, base + 1]
    }
}

/// The state of a sum that is being worked out: the gates that are still to
/// be settled, the wires that are known, the number of gates in a row that
/// could not be settled, the sum so far and the number of its bits that
/// have been settled.
pub struct Adding {
    pub queue: Seq<int>,
    pub wires: Seq<(Seq<char>, Bit)>,
    pub waiting: nat,
    pub z_result: u64,
    pub z_count: nat,
}

/// The number that the gates put out on their wires `z` of numbers below
/// `bits`, where every gate waits until both its bits are known; nothing
/// where the gates that are left have all been tried in vain before `bits`
/// wires of the output are settled.
pub open spec fn added(gates: Seq<Gate>, state: Adding, bits: nat) -> Option<u64>
    decreases state.queue.len(), state.queue.len() - state.waiting,
{
    if state.queue.len() == 0 {
        Some(state.z_result)
    } else if state.waiting >= state.queue.len() {
        None
    } else {
        let gate = gates[state.queue[0]];
        let rest = state.queue.drop_first();
        match strict(gate, state.wires) {
            Some(value) => {
                if gate.is_z {
                    let z_result = if gate.output_id < bits {
                        wrapped_sum(
                            state.z_result,
                            wrapped_product(value as u64, weight(gate.output_id as nat)),
                        )
                    } else {
                        state.z_result
                    };
                    if state.z_count + 1 == bits {
                        Some(z_result)
                    } else if rest.len() == 0 {
                        None
                    } else {
                        added(
                            gates,
                            Adding {
                                queue: rest,
                                wires: state.wires,
                                waiting: 0,
                                z_result,
                                z_count: state.z_count + 1,
                            },
                            bits,
                        )
                    }
                } else if rest.len() == 0 {
                    None
                } else {
                    added(
                        gates,
                        Adding {
                            queue: rest,
                            wires: put(state.wires, gate.output@, value),
                            waiting: 0,
                            ..state
                        },
                        bits,
                    )
                }
            },
            None => added(
                gates,
                Adding { queue: rest.push(state.queue[0]), waiting: state.waiting + 1, ..state },
                bits,
            ),
        }
    }
}

/// The state with these parts.
pub open spec fn adding(
    queue: Seq<int>,
    wires: Seq<(Seq<char>, Bit)>,
    waiting: nat,
    z_result: u64,
    z_count: nat,
) -> Adding {
    Adding { queue, wires, waiting, z_result, z_count }
}

/// Works out the number that the gates of the queue put out on the wires
/// `z` of numbers below `result_number_of_bits`, from the wires that are
/// known.
pub fn process_logic_system2(
    unprocessed_gates: &mut VecDeque<usize>,
    gates: &Vec<Gate>,
    known_wires: &mut Wires,
    result_number_of_bits: usize,
) -> (result: Option<u64>)
    requires
        result_number_of_bits >= 1,
        forall|i: int|
            0 <= i < old(unprocessed_gates)@.len() ==> #[trigger] old(unprocessed_gates)@[i]
                < gates.len(),
    ensures
        result == added(
            gates@,
            adding(queue_view(old(unprocessed_gates)@), old(known_wires)@, 0, 0, 0),
            result_number_of_bits as nat,
        ),
{
    let mut z_result: u64 = 0;
    let mut z_count: usize = 0;
    let mut breaker: usize = 0;
    let ghost whole = added(
        gates@,
        adding(queue_view(unprocessed_gates@), known_wires@, 0, 0, 0),
        result_number_of_bits as nat,
    );
    while unprocessed_gates.len() > 0
        invariant
            forall|i: int| 0 <= i < unprocessed_gates@.len() ==> #[trigger] unprocessed_gates@[i] < gates.len(),
            breaker < unprocessed_gates@.len() || unprocessed_gates@.len() == 0,
            z_count < result_number_of_bits,
            whole == added(
                gates@,
                adding(queue_view(old(unprocessed_gates)@), old(known_wires)@, 0, 0, 0),
                result_number_of_bits as nat,
            ),
            whole == added(
                gates@,
                adding(
                    queue_view(unprocessed_gates@),
                    known_wires@,
                    breaker as nat,
                    z_result,
                    z_count as nat,
                ),
                result_number_of_bits as nat,
            ),
        decreases unprocessed_gates@.len(), unprocessed_gates@.len() - breaker,
    {
        let ghost before = unprocessed_gates@;
        let index = unprocessed_gates.pop_front().unwrap();
        assert(index == before[0]);
        assert(queue_view(before)[0] == index);
        assert(queue_view(unprocessed_gates@) == queue_view(before).drop_first());
        let gate = &gates[index];
        match gate.process_strict(known_wires) {
            Some(value) => {
                if gate.is_z {
                    let offset = gate.output_id;
                    if offset < result_number_of_bits {
                        z_result = z_result.wrapping_add(
                            (value as u64).wrapping_mul(weight_of(offset)),
                        );
                    }
                    z_count += 1;
                    if z_count == result_number_of_bits {
                        return Some(z_result);
                    }
                } else {
                    let output = copy_range(&gate.output, 0, gate.output.len());
                    assert(output@ == gate.output@);
                    known_wires.insert(output, value);
                }
                breaker = 0;
            },
            None => {
                unprocessed_gates.push_back(index);
                assert(queue_view(unprocessed_gates@) == queue_view(before).drop_first().push(
                    index as int,
                ));
                breaker += 1;
            },
        }
        if breaker >= unprocessed_gates.len() {
            proof {
                let state = adding(
                    queue_view(unprocessed_gates@),
                    known_wires@,
                    breaker as nat,
                    z_result,
                    z_count as nat,
                );
                if unprocessed_gates@.len() > 0 {
                    assert(added(gates@, state, result_number_of_bits as nat) is None);
                }
            }
            return None;
        }
    }
    Some(z_result)
}

/// The wires of the two numbers that are to be added, of `bits` bits each.
pub open spec fn addends(value_x: u64, value_y: u64, bits: nat) -> Seq<(Seq<char>, Bit)> {
    with_value(
        with_value(Seq::<(Seq<char>, Bit)>::empty(), 'x', value_x, bits),
        'y',
        value_y,
        bits,
    )
}

/// The sum that the gates work out for two numbers.
pub open spec fn sum_of(gates: Seq<Gate>, value_x: u64, value_y: u64, number_of_bits: nat) -> Option<
    u64,
> {
    added(
        gates,
        adding(
            numbers(gates.len()),
            addends(value_x, value_y, number_of_bits + 1),
            0,
            0,
            0,
        ),
        number_of_bits + 1,
    )
}

/// The sum that the gates work out for two numbers of `number_of_bits`
/// bits, on `number_of_bits + 1` wires of the output.
pub fn sum(gates: &Vec<Gate>, value_x: u64, value_y: u64, number_of_bits: usize) -> (result: Option<
    u64,
>)
    requires
        number_of_bits < usize::MAX,
    ensures
        result == sum_of(gates@, value_x, value_y, number_of_bits as nat),
{
    let mut known_wires = Wires::new();
    add_value_to_wires(&mut known_wires, 'x', value_x, number_of_bits);
    add_value_to_wires(&mut known_wires, 'y', value_y, number_of_bits);
    let result_number_of_bits = number_of_bits + 1;
    let mut remaining_gates = all_gates(gates.len());
    assert(queue_view(remaining_gates@) == numbers(gates.len() as nat));
    process_logic_system2(&mut remaining_gates, gates, &mut known_wires, result_number_of_bits)
}

/// Whether the gates add the two numbers of the trial right, and the second
/// to itself; nothing where they do not work out a sum.
pub open spec fn validated(gates: Seq<Gate>, number_of_bits: nat) -> Option<bool> {
    let values = values_to_test(number_of_bits);
    match sum_of(gates, values.0, values.1, number_of_bits) {
        None => None,
        Some(first) => if first != values.0 + values.1 {
            Some(false)
        } else {
            match sum_of(gates, values.1, values.1, number_of_bits) {
                None => None,
                Some(second) => Some(second == values.1 + values.1),
            }
        },
    }
}

/// Whether the gates add numbers of `number_of_bits` bits right, as far as
/// the two trials tell.
pub fn validate_sum(gates: &Vec<Gate>, number_of_bits: usize) -> (valid: Option<bool>)
    requires
        1 <= number_of_bits <= 62,
    ensures
        valid == validated(gates@, number_of_bits as nat),
{
    let values = get_values_to_test(number_of_bits);
    proof {
        lemma_weight_bound((number_of_bits - 1) as nat);
    }
    let first = match sum(gates, values[0], values[1], number_of_bits) {
        None => {
            return None;
        },
        Some(first) => first,
    };
    if first != values[0] + values[1] {
        return Some(false);
    }
    let second = match sum(gates, values[1], values[1], number_of_bits) {
        None => {
            return None;
        },
        Some(second) => second,
    };
    Some(second == values[1] + values[1])
}

/// Whether the gates add right for every number of bits from `from` up to,
/// but not with, `to`.
pub open spec fn all_validated(gates: Seq<Gate>, from: int, to: int) -> bool {
    forall|bits: int| from <= bits < to && 1 <= bits ==> #[trigger] validated(gates, bits as nat) == Some(true)
}

/// Whether the gates add right for every number of bits from 1 to
/// `number_of_bits`.
pub fn validate_sums_to_bits(gates: &Vec<Gate>, number_of_bits: usize) -> (valid: bool)
    requires
        number_of_bits <= 62,
    ensures
        valid == all_validated(gates@, 1, number_of_bits + 1),
{
    let mut bits = number_of_bits;
    while bits > 0
        invariant
            bits <= number_of_bits <= 62,
            all_validated(gates@, bits + 1, number_of_bits + 1),
        decreases bits,
    {
        match validate_sum(gates, bits) {
            Some(true) => {},
            _ => {
                assert(validated(gates@, bits as nat) != Some(true));
                return false;
            },
        }
        bits -= 1;
    }
    true
}

/// The place of the last gate that puts its result on the wire `name`;
/// nothing where no gate does.
pub open spec fn last_output(gates: Seq<Gate>, name: Seq<char>) -> Option<int>
    decreases gates.len(),
{
    if gates.len() == 0 {
        None
    } else if gates.last().output@ == name {
        Some(gates.len() - 1)
    } else {
        last_output(gates.drop_last(), name)
    }
}

/// The place of the last gate for a wire is the place of a gate.
pub proof fn lemma_last_output(gates: Seq<Gate>, name: Seq<char>)
    ensures
        last_output(gates, name) matches Some(i) ==> 0 <= i < gates.len() && gates[i].output@ == name,
    decreases gates.len(),
{
    if gates.len() > 0 {
        lemma_last_output(gates.drop_last(), name);
    }
}

/// The place of the last gate that puts its result on the wire `name`.
fn find_output(gates: &Vec<Gate>, name: &Vec<char>) -> (found: Option<usize>)
    ensures
        match found {
            Some(i) => last_output(gates@, name@) == Some(i as int) && i < gates.len(),
            None => last_output(gates@, name@) is None,
        },
{
    let mut found: Option<usize> = None;
    let mut i: usize = 0;
    assert(gates@.take(0) =~= Seq::<Gate>::empty());
    while i < gates.len()
        invariant
            i <= gates.len(),
            match found {
                Some(n) => last_output(gates@.take(i as int), name@) == Some(n as int) && n < i,
                None => last_output(gates@.take(i as int), name@) is None,
            },
        decreases gates.len() - i,
    {
        proof {
            assert(gates@.take(i + 1).drop_last() =~= gates@.take(i as int));
            assert(gates@.take(i + 1).last() == gates[i as int]);
        }
        if same_chars(&gates[i].output, name) {
            found = Some(i);
        }
        i += 1;
    }
    assert(gates@.take(i as int) == gates@);
    found
}

/// Whether a gate can put its result on the wire `name`: the name is not
/// empty, and the name of a wire of the output has two characters for its
/// number after the `z`.
pub open spec fn can_name(name: Seq<char>) -> bool {
    name.len() >= 1 && (name[0] == 'z' ==> name.len() >= 3 && rough_value(name.subrange(1, 3)) is Some)
}

/// Whether `after` is `before` with its result put on the wire `name`.
pub open spec fn is_rewired(before: Gate, after: Gate, name: Seq<char>) -> bool {
    &&& after.first_input == before.first_input
    &&& after.second_input == before.second_input
    &&& after.operation == before.operation
    &&& after.output@ == name
    &&& after.is_z == (name[0] == 'z')
    &&& after.is_z ==> Gate::names(name, after.is_z, after.output_id)
    &&& !after.is_z ==> after.output_id == before.output_id
}

/// Whether the gates have, after a swap, at `place` what they had there
/// before with its result on the wire `name`, where the name can be given,
/// and else what they had.
pub open spec fn is_swapped_at(before: Seq<Gate>, after: Seq<Gate>, place: int, name: Seq<char>) -> bool {
    if can_name(name) {
        is_rewired(before[place], after[place], name)
    } else {
        after[place] == before[place]
    }
}

/// Lets the two gates that put their results on the wires `swap_a` and
/// `swap_b` put them on each other's wire: of the gates for each wire the
/// last. Tells whether it did: whether there are such gates and both names
/// can be given. Where a gate is missing nothing changes; where a name
/// cannot be given, its gate stays as it was.
pub fn swap_wires(gates: &mut Vec<Gate>, swap_a: &Vec<char>, swap_b: &Vec<char>) -> (swapped: bool)
    ensures
        final(gates).len() == old(gates).len(),
        swapped == (last_output(old(gates)@, swap_a@) is Some && last_output(old(gates)@, swap_b@)
            is Some && can_name(swap_a@) && can_name(swap_b@)),
        match (last_output(old(gates)@, swap_a@), last_output(old(gates)@, swap_b@)) {
            (Some(a), Some(b)) => {
                &&& is_swapped_at(old(gates)@, final(gates)@, a, swap_b@)
                &&& is_swapped_at(old(gates)@, final(gates)@, b, swap_a@)
                &&& forall|k: int|
                    0 <= k < old(gates).len() && k != a && k != b ==> #[trigger] final(gates)@[k]
                        == old(gates)@[k]
            },
            _ => final(gates)@ == old(gates)@,
        },
{
    let gate_a = match find_output(gates, swap_a) {
        None => {
            return false;
        },
        Some(index) => index,
    };
    let gate_b = match find_output(gates, swap_b) {
        None => {
            return false;
        },
        Some(index) => index,
    };
    proof {
        lemma_last_output(gates@, swap_a@);
        lemma_last_output(gates@, swap_b@);
    }
    let remember_a = copy_range(&gates[gate_a].output, 0, gates[gate_a].output.len());
    let remember_b = copy_range(&gates[gate_b].output, 0, gates[gate_b].output.len());
    assert(remember_a@ =~= swap_a@ && remember_b@ =~= swap_b@);
    let first = gates[gate_a].set_output(remember_b);
    let ghost between = gates@;
    let second = gates[gate_b].set_output(remember_a);
    proof {
        assert forall|k: int| 0 <= k < old(gates).len() && k != gate_a && k != gate_b implies #[trigger] gates@[k]
            == old(gates)@[k] by {
            assert(between[k] == old(gates)@[k]);
        }
        if gate_a != gate_b {
            assert(gates@[gate_a as int] == between[gate_a as int]);
            assert(between[gate_b as int] == old(gates)@[gate_b as int]);
        } else {
            assert(swap_a@ == swap_b@);
        }
    }
    first && second
}

/// What a gate is made of: its wires by their names, and what it does.
pub ghost struct GateShape {
    pub first_input: Seq<char>,
    pub second_input: Seq<char>,
    pub operation: Operation,
    pub output: Seq<char>,
    pub is_z: bool,
    pub output_id: usize,
}

impl Gate {
    /// What this gate is made of.
    pub open spec fn shape(&self) -> GateShape {
        GateShape {
            first_input: self.first_input@,
            second_input: self.second_input@,
            operation: self.operation,
            output: self.output@,
            is_z: self.is_z,
            output_id: self.output_id,
        }
    }
}

/// What each of the gates is made of.
pub open spec fn shapes(gates: Seq<Gate>) -> Seq<GateShape> {
    Seq::new(gates.len(), |i: int| gates[i].shape())
}

/// Gates of the same make put out the same number.
pub proof fn lemma_same_added(one: Seq<Gate>, other: Seq<Gate>, state: Adding, bits: nat)
    requires
        shapes(one) == shapes(other),
        forall|k: int| 0 <= k < state.queue.len() ==> 0 <= #[trigger] state.queue[k] < one.len(),
    ensures
        added(one, state, bits) == added(other, state, bits),
    decreases state.queue.len(), state.queue.len() - state.waiting,
{
    if state.queue.len() == 0 || state.waiting >= state.queue.len() {
    } else {
        let q = state.queue[0];
        assert(shapes(one).len() == one.len() && shapes(other).len() == other.len());
        assert(shapes(one)[q] == one[q].shape());
        assert(shapes(other)[q] == other[q].shape());
        let gate = one[q];
        let rest = state.queue.drop_first();
        assert forall|k: int| 0 <= k < rest.len() implies 0 <= #[trigger] rest[k] < one.len() by {
            assert(rest[k] == state.queue[k + 1]);
        }
        match strict(gate, state.wires) {
            Some(value) => {
                if gate.is_z {
                    let z_result = if gate.output_id < bits {
                        wrapped_sum(
                            state.z_result,
                            wrapped_product(value as u64, weight(gate.output_id as nat)),
                        )
                    } else {
                        state.z_result
                    };
                    if state.z_count + 1 != bits && rest.len() != 0 {
                        lemma_same_added(
                            one,
                            other,
                            Adding {
                                queue: rest,
                                wires: state.wires,
                                waiting: 0,
                                z_result,
                                z_count: state.z_count + 1,
                            },
                            bits,
                        );
                    }
                } else if rest.len() != 0 {
                    lemma_same_added(
                        one,
                        other,
                        Adding {
                            queue: rest,
                            wires: put(state.wires, gate.output@, value),
                            waiting: 0,
                            ..state
                        },
                        bits,
                    );
                }
            },
            None => {
                let turned = rest.push(q);
                assert forall|k: int| 0 <= k < turned.len() implies 0 <= #[trigger] turned[k]
                    < one.len() by {
                    if k < rest.len() {
                        assert(turned[k] == rest[k]);
                    }
                }
                lemma_same_added(
                    one,
                    other,
                    Adding { queue: turned, waiting: state.waiting + 1, ..state },
                    bits,
                );
            },
        }
    }
}

/// Gates of the same make add alike.
pub proof fn lemma_same_validated(one: Seq<Gate>, other: Seq<Gate>, bits: nat)
    requires
        shapes(one) == shapes(other),
    ensures
        validated(one, bits) == validated(other, bits),
{
    assert(one.len() == shapes(one).len() && other.len() == shapes(other).len());
    let values = values_to_test(bits);
    lemma_same_added(
        one,
        other,
        adding(numbers(one.len()), addends(values.0, values.1, bits + 1), 0, 0, 0),
        bits + 1,
    );
    lemma_same_added(
        one,
        other,
        adding(numbers(one.len()), addends(values.1, values.1, bits + 1), 0, 0, 0),
        bits + 1,
    );
}

/// Whether gates of this make add the two numbers of the trial right;
/// nothing where they do not work out a sum.
pub open spec fn shape_validated(made: Seq<GateShape>, bits: nat) -> Option<bool> {
    validated(choose|gates: Seq<Gate>| shapes(gates) == made, bits)
}

/// Whether gates of this make add right for every number of bits from 1
/// to `bits`.
pub open spec fn shapes_validated(made: Seq<GateShape>, bits: nat) -> bool {
    forall|n: nat| 1 <= n <= bits ==> #[trigger] shape_validated(made, n) == Some(true)
}

/// Gates add as gates of their make do.
pub proof fn lemma_shape_validated(gates: Seq<Gate>, bits: nat)
    ensures
        shape_validated(shapes(gates), bits) == validated(gates, bits),
{
    let made = shapes(gates);
    let chosen = choose|others: Seq<Gate>| shapes(others) == made;
    lemma_same_validated(chosen, gates, bits);
}

/// The place of the last gate of this make that puts its result on the
/// wire `name`; nothing where none does.
pub open spec fn last_made(made: Seq<GateShape>, name: Seq<char>) -> Option<int>
    decreases made.len(),
{
    if made.len() == 0 {
        None
    } else if made.last().output == name {
        Some(made.len() - 1)
    } else {
        last_made(made.drop_last(), name)
    }
}

/// The last gate for a wire is found by the make of the gates.
pub proof fn lemma_last_made(gates: Seq<Gate>, name: Seq<char>)
    ensures
        last_made(shapes(gates), name) == last_output(gates, name),
    decreases gates.len(),
{
    if gates.len() > 0 {
        assert(shapes(gates).drop_last() =~= shapes(gates.drop_last()));
        assert(shapes(gates).last() == gates.last().shape());
        lemma_last_made(gates.drop_last(), name);
    }
}

/// The make of a gate that puts its result on the wire `name`, where the
/// name can be given; else the make as it is.
pub open spec fn renamed(made: GateShape, name: Seq<char>) -> GateShape {
    if can_name(name) {
        GateShape {
            output: name,
            is_z: name[0] == 'z',
            output_id: if name[0] == 'z' {
                rough_value(name.subrange(1, 3))->Some_0 as usize
            } else {
                made.output_id
            },
            ..made
        }
    } else {
        made
    }
}

/// The make of the gates once the last gates for the wires `a` and `b`
/// have swapped their wires; the same where a gate is missing.
pub open spec fn swapped(made: Seq<GateShape>, a: Seq<char>, b: Seq<char>) -> Seq<GateShape> {
    match (last_made(made, a), last_made(made, b)) {
        (Some(first), Some(second)) => {
            let once = made.update(first, renamed(made[first], b));
            once.update(second, renamed(once[second], a))
        },
        _ => made,
    }
}

/// What a swap makes of the gates is a swap of what they are made of.
pub proof fn lemma_swapped(before: Seq<Gate>, after: Seq<Gate>, a: Seq<char>, b: Seq<char>)
    requires
        after.len() == before.len(),
        match (last_output(before, a), last_output(before, b)) {
            (Some(first), Some(second)) => {
                &&& is_swapped_at(before, after, first, b)
                &&& is_swapped_at(before, after, second, a)
                &&& forall|k: int|
                    0 <= k < before.len() && k != first && k != second ==> #[trigger] after[k]
                        == before[k]
            },
            _ => after == before,
        },
    ensures
        shapes(after) == swapped(shapes(before), a, b),
{
    lemma_last_made(before, a);
    lemma_last_made(before, b);
    lemma_last_output(before, a);
    lemma_last_output(before, b);
    match (last_output(before, a), last_output(before, b)) {
        (Some(first), Some(second)) => {
            let made = shapes(before);
            let once = made.update(first, renamed(made[first], b));
            let twice = once.update(second, renamed(once[second], a));
            assert(made[first] == before[first].shape());
            assert(made[second] == before[second].shape());
            assert forall|k: int| 0 <= k < after.len() implies shapes(after)[k] == twice[k] by {
                assert(shapes(after)[k] == after[k].shape());
                if k != first && k != second {
                    assert(after[k] == before[k]);
                    assert(made[k] == before[k].shape());
                } else if first == second {
                    assert(a == b);
                }
            }
            assert(shapes(after) =~= twice);
        },
        _ => {},
    }
}

/// The most numbers of bits that are tried, and one more.
pub const ALL_BITS: usize = 46;

/// The names of the wires on which the first `n` gates put their results
/// and that have not been swapped yet, in the order of the gates.
pub open spec fn swappable(made: Seq<GateShape>, active: Seq<Seq<char>>, n: nat) -> Seq<Seq<char>>
    decreases n,
{
    if n == 0 {
        Seq::empty()
    } else if active.contains(made[n - 1].output) {
        swappable(made, active, (n - 1) as nat)
    } else {
        swappable(made, active, (n - 1) as nat).push(made[n - 1].output)
    }
}

/// What a search for swaps ends with: the names of the swapped wires, or
/// nothing, and what the gates are made of then.
pub ghost struct Hunt {
    pub found: Option<Seq<Seq<char>>>,
    pub made: Seq<GateShape>,
}

/// How many of `all` are left from `from` on.
pub open spec fn left_from(all: nat, from: nat) -> nat {
    if from <= all {
        (all - from) as nat
    } else {
        0
    }
}

/// What the search for swaps ends with, from `bits` bits on and with the
/// wires `active` swapped already. With all bits tried, the swaps are the
/// result; with more than eight wires swapped, the search gives up; where
/// the gates add right for `bits` bits, it goes on with one bit more; and
/// else it tries the pairs of wires that have not been swapped yet.
pub open spec fn hunt(made: Seq<GateShape>, bits: nat, active: Seq<Seq<char>>) -> Hunt
    decreases left_from(ALL_BITS as nat, bits), 1nat, 0nat, 0nat,
{
    if bits >= ALL_BITS {
        Hunt { found: Some(active), made }
    } else if active.len() > 8 {
        Hunt { found: None, made }
    } else if shape_validated(made, bits) == Some(true) {
        hunt(made, bits + 1, active)
    } else {
        try_pairs(made, bits, active, swappable(made, active, made.len()), 0, 1)
    }
}

/// What trying the pairs of wires ends with, from the pair of the wires
/// `i` and `j` of `names` on: the two are swapped, and where the gates then
/// add right for every number of bits up to `bits`, the search goes on
/// with one bit more and the two wires among the swapped; where that finds
/// nothing, or the gates do not add right, the two are swapped back and
/// the next pair is tried.
pub open spec fn try_pairs(
    made: Seq<GateShape>,
    bits: nat,
    active: Seq<Seq<char>>,
    names: Seq<Seq<char>>,
    i: nat,
    j: nat,
) -> Hunt
    decreases left_from(ALL_BITS as nat, bits), 0nat, left_from(names.len(), i), left_from(
        names.len(),
        j,
    ),
{
    if bits >= ALL_BITS || i >= names.len() {
        Hunt { found: None, made }
    } else if j >= names.len() {
        try_pairs(made, bits, active, names, i + 1, i + 2)
    } else {
        let tried = swapped(made, names[i as int], names[j as int]);
        if shapes_validated(tried, bits) {
            let further = hunt(tried, bits + 1, active.push(names[i as int]).push(names[j as int]));
            if further.found is Some {
                further
            } else {
                try_pairs(
                    swapped(further.made, names[i as int], names[j as int]),
                    bits,
                    active,
                    names,
                    i,
                    j + 1,
                )
            }
        } else {
            try_pairs(swapped(tried, names[i as int], names[j as int]), bits, active, names, i, j + 1)
        }
    }
}

/// Gates add right up to a number of bits as gates of their make do.
proof fn lemma_shapes_validated(gates: Seq<Gate>, bits: nat)
    ensures
        shapes_validated(shapes(gates), bits) == all_validated(gates, 1, bits as int + 1),
{
    if all_validated(gates, 1, bits as int + 1) {
        assert forall|n: nat| 1 <= n <= bits implies #[trigger] shape_validated(shapes(gates), n)
            == Some(true) by {
            lemma_shape_validated(gates, n);
            assert(validated(gates, (n as int) as nat) == Some(true));
        }
    }
    if shapes_validated(shapes(gates), bits) {
        assert forall|n: int| 1 <= n < bits + 1 && 1 <= n implies #[trigger] validated(gates, n as nat)
            == Some(true) by {
            lemma_shape_validated(gates, n as nat);
            assert(shape_validated(shapes(gates), n as nat) == Some(true));
        }
    }
}

/// Looks for pairs of gates whose outputs have to be swapped for the gates
/// to add right: the sums are tried for more and more bits, and where one
/// fails, every pair of outputs that has not been swapped yet is tried in
/// its turn. The names of the swapped outputs are handed back, and the
/// gates are left as the search has left them.
pub fn find_gates_to_swap(gates: &mut Vec<Gate>, number_of_bits: usize, active_swaps: &Vec<Vec<char>>) -> (found:
    Option<Vec<Vec<char>>>)
    requires
        1 <= number_of_bits <= ALL_BITS,
    ensures
        final(gates).len() == old(gates).len(),
        shapes(final(gates)@) == hunt(
            shapes(old(gates)@),
            number_of_bits as nat,
            views(active_swaps@),
        ).made,
        match hunt(shapes(old(gates)@), number_of_bits as nat, views(active_swaps@)).found {
            Some(names) => found matches Some(swaps) && views(swaps@) == names,
            None => found is None,
        },
        found is Some ==> all_validated(final(gates)@, number_of_bits as int, ALL_BITS as int),
        found is Some ==> final(gates)@ == old(gates)@ || all_validated(
            final(gates)@,
            1,
            number_of_bits as int,
        ),
    decreases ALL_BITS - number_of_bits,
{
    let ghost active = views(active_swaps@);
    let ghost bits = number_of_bits as nat;
    let ghost start = gates@;
    let ghost whole = hunt(shapes(start), bits, active);
    if number_of_bits == ALL_BITS {
        return Some(copy_names(active_swaps));
    }
    if active_swaps.len() > 8 {
        assert(active.len() == active_swaps.len());
        return None;
    }
    assert(active.len() == active_swaps.len());
    assert(start == old(gates)@);
    proof {
        lemma_shape_validated(start, bits);
    }
    match validate_sum(gates, number_of_bits) {
        Some(true) => {
            let found = find_gates_to_swap(gates, number_of_bits + 1, active_swaps);
            proof {
                if found is Some {
                    assert(all_validated(gates@, number_of_bits as int, ALL_BITS as int)) by {
                        if gates@ == start {
                        }
                    }
                }
            }
            return found;
        },
        _ => {},
    }
    let mut swappable_wires: Vec<Vec<char>> = Vec::new();
    let mut g: usize = 0;
    assert(views(swappable_wires@) =~= swappable(shapes(start), active, 0));
    while g < gates.len()
        invariant
            g <= gates.len(),
            gates@ == start,
            start == old(gates)@,
            active == views(active_swaps@),
            views(swappable_wires@) == swappable(shapes(start), active, g as nat),
        decreases gates.len() - g,
    {
        let ghost before = views(swappable_wires@);
        assert(shapes(start)[g as int] == start[g as int].shape());
        if !contains_name(active_swaps, &gates[g].output) {
            let name = copy_range(&gates[g].output, 0, gates[g].output.len());
            assert(name@ =~= gates[g as int].output@);
            swappable_wires.push(name);
            assert(views(swappable_wires@) =~= before.push(gates[g as int].output@));
        }
        g += 1;
    }
    let ghost names = views(swappable_wires@);
    assert(names == swappable(shapes(start), active, shapes(start).len()));
    assert(whole == try_pairs(shapes(start), bits, active, names, 0, 1));
    let mut i: usize = 0;
    while i < swappable_wires.len()
        invariant
            i <= swappable_wires.len(),
            gates.len() == start.len(),
            gates.len() == old(gates).len(),
            start == old(gates)@,
            1 <= number_of_bits < ALL_BITS,
            bits == number_of_bits,
            active == views(active_swaps@),
            active.len() <= 8,
            names == views(swappable_wires@),
            whole == hunt(shapes(start), bits, active),
            whole == try_pairs(shapes(gates@), bits, active, names, i as nat, (i + 1) as nat),
        decreases swappable_wires.len() - i,
    {
        let mut j: usize = i + 1;
        while j < swappable_wires.len()
            invariant
                i < j <= swappable_wires.len(),
                gates.len() == start.len(),
                gates.len() == old(gates).len(),
                start == old(gates)@,
                1 <= number_of_bits < ALL_BITS,
                bits == number_of_bits,
                active == views(active_swaps@),
                active.len() <= 8,
                names == views(swappable_wires@),
                whole == hunt(shapes(start), bits, active),
                whole == try_pairs(shapes(gates@), bits, active, names, i as nat, j as nat),
            decreases swappable_wires.len() - j,
        {
            let wire_a = &swappable_wires[i];
            let wire_b = &swappable_wires[j];
            let ghost first = gates@;
            let ghost a = wire_a@;
            let ghost b = wire_b@;
            assert(names[i as int] == a && names[j as int] == b);
            swap_wires(gates, wire_a, wire_b);
            let ghost second = gates@;
            proof {
                lemma_swapped(first, second, a, b);
                lemma_shapes_validated(second, bits);
            }
            let ghost mut third = second;
            if validate_sums_to_bits(gates, number_of_bits) {
                let mut recursive_active_swaps = copy_names(active_swaps);
                let copy_a = copy_range(wire_a, 0, wire_a.len());
                let copy_b = copy_range(wire_b, 0, wire_b.len());
                assert(copy_a@ =~= a && copy_b@ =~= b);
                let ghost one = views(recursive_active_swaps@);
                recursive_active_swaps.push(copy_a);
                let ghost two = views(recursive_active_swaps@);
                assert(two =~= one.push(a));
                recursive_active_swaps.push(copy_b);
                proof {
                    assert(views(recursive_active_swaps@) =~= two.push(b));
                    assert(views(recursive_active_swaps@) =~= active.push(a).push(b));
                }
                let ghost swapped_gates = gates@;
                if let Some(result) = find_gates_to_swap(
                    gates,
                    number_of_bits + 1,
                    &recursive_active_swaps,
                ) {
                    proof {
                        assert(all_validated(swapped_gates, 1, number_of_bits + 1));
                        assert(all_validated(gates@, 1, number_of_bits + 1));
                    }
                    return Some(result);
                }
                proof {
                    third = gates@;
                }
            }
            swap_wires(gates, wire_a, wire_b);
            proof {
                lemma_swapped(third, gates@, a, b);
            }
            j += 1;
        }
        i += 1;
    }
    None
}

/// A copy of the names.
fn copy_names(names: &Vec<Vec<char>>) -> (copy: Vec<Vec<char>>)
    ensures
        views(copy@) == views(names@),
{
    let mut copy: Vec<Vec<char>> = Vec::new();
    let mut i: usize = 0;
    while i < names.len()
        invariant
            i <= names.len(),
            views(copy@) == views(names@).take(i as int),
        decreases names.len() - i,
    {
        let ghost before = views(copy@);
        let name = copy_range(&names[i], 0, names[i].len());
        assert(name@ == views(names@)[i as int]);
        copy.push(name);
        assert(views(copy@) == before.push(name@));
        assert(views(names@).take(i + 1) == views(names@).take(i as int).push(views(names@)[i as int]));
        i += 1;
    }
    assert(views(names@).take(i as int) == views(names@));
    copy
}

/// Whether `name` is among the names.
fn contains_name(names: &Vec<Vec<char>>, name: &Vec<char>) -> (found: bool)
    ensures
        found == views(names@).contains(name@),
{
    let mut i: usize = 0;
    while i < names.len()
        invariant
            i <= names.len(),
            forall|j: int| 0 <= j < i ==> views(names@)[j] != name@,
        decreases names.len() - i,
    {
        assert(views(names@)[i as int] == names[i as int]@);
        if same_chars(&names[i], name) {
            return true;
        }
        i += 1;
    }
    false
}

/// Whether a line names a wire and its bit: three characters for the name,
/// two that do not count, and the bit, which is 1 where `1` stands.
pub open spec fn is_wire_line(line: Seq<char>) -> bool {
    line.len() >= 6
}

/// The operation that a word names, if it names one.
pub open spec fn operation_of(word: Seq<char>) -> Option<Operation> {
    if word == seq!['O', 'R'] {
        Some(Operation::OR)
    } else if word == seq!['A', 'N', 'D'] {
        Some(Operation::AND)
    } else if word == seq!['X', 'O', 'R'] {
        Some(Operation::XOR)
    } else {
        None
    }
}

/// Whether a line writes a gate: the first input in its first three
/// characters, the operation from the fifth to the seventh, the second input
/// from the eighth to the eleventh, and the output from the fifteenth on,
/// each without the white space around it.
pub open spec fn is_gate_line(line: Seq<char>) -> bool {
    &&& line.len() >= 14
    &&& operation_of(trimmed(line.subrange(4, 7))) is Some
    &&& exists|is_z: bool, output_id: usize| Gate::names(trimmed(line.skip(14)), is_z, output_id)
}

/// Whether `gate` is what the line writes.
pub open spec fn is_gate_of(line: Seq<char>, gate: Gate) -> bool {
    &&& is_gate_line(line)
    &&& gate.first_input@ == line.take(3)
    &&& Some(gate.operation) == operation_of(trimmed(line.subrange(4, 7)))
    &&& gate.second_input@ == trimmed(line.subrange(7, 11))
    &&& gate.output@ == trimmed(line.skip(14))
    &&& Gate::names(gate.output@, gate.is_z, gate.output_id)
}

/// The operation that a word names.
fn read_operation(word: &Vec<char>) -> (operation: Option<Operation>)
    ensures
        operation == operation_of(word@),
{
    if word.len() == 2 && word[0] == 'O' && word[1] == 'R' {
        assert(word@ == seq!['O', 'R']);
        Some(Operation::OR)
    } else if word.len() == 3 && word[0] == 'A' && word[1] == 'N' && word[2] == 'D' {
        assert(word@ == seq!['A', 'N', 'D']);
        Some(Operation::AND)
    } else if word.len() == 3 && word[0] == 'X' && word[1] == 'O' && word[2] == 'R' {
        assert(word@ == seq!['X', 'O', 'R']);
        Some(Operation::XOR)
    } else {
        proof {
            if word@ == seq!['O', 'R'] {
                assert(word@.len() == 2 && word@[0] == 'O' && word@[1] == 'R');
            }
            if word@ == seq!['A', 'N', 'D'] {
                assert(word@.len() == 3 && word@[0] == 'A' && word@[1] == 'N' && word@[2] == 'D');
            }
            if word@ == seq!['X', 'O', 'R'] {
                assert(word@.len() == 3 && word@[0] == 'X' && word@[1] == 'O' && word@[2] == 'R');
            }
        }
        None
    }
}

/// What a line writes, as a gate.
fn parse_gate(line: &Vec<char>) -> (gate: Option<Gate>)
    ensures
        gate is Some <==> is_gate_line(line@),
        gate matches Some(found) ==> is_gate_of(line@, found),
{
    if line.len() < 14 {
        return None;
    }
    let input1 = copy_range(line, 0, 3);
    assert(input1@ == line@.take(3));
    let operation_text = copy_range(line, 4, 7);
    let operation = match read_operation(&trim(&operation_text)) {
        None => {
            return None;
        },
        Some(operation) => operation,
    };
    let input2 = trim(&copy_range(line, 7, 11));
    let rest = copy_range(line, 14, line.len());
    assert(rest@ == line@.skip(14));
    let output = trim(&rest);
    let ghost name = output@;
    let mut gate = Gate {
        first_input: input1,
        second_input: input2,
        operation,
        output: Vec::new(),
        is_z: false,
        output_id: 0,
    };
    if gate.set_output(output) {
        proof {
            assert(Gate::names(name, gate.is_z, gate.output_id));
        }
        Some(gate)
    } else {
        proof {
            if exists|is_z: bool, output_id: usize| Gate::names(name, is_z, output_id) {
                let (is_z, output_id) = choose|is_z: bool, output_id: usize|
                    Gate::names(name, is_z, output_id);
                assert(name.len() >= 1);
                if is_z {
                    assert(rough_value(name.subrange(1, 3)) is Some);
                }
            }
        }
        None
    }
}

/// Whether the lines write a system: lines of wires, an empty line, and
/// lines of gates.
pub open spec fn is_system(all: Seq<Seq<char>>, wires: int) -> bool {
    &&& 0 <= wires <= all.len()
    &&& forall|i: int| 0 <= i < wires ==> (#[trigger] all[i]).len() > 0 && is_wire_line(all[i])
    &&& wires < all.len() ==> all[wires].len() == 0
    &&& forall|i: int| wires < i < all.len() ==> is_gate_line(#[trigger] all[i])
}

/// The wires that the first `n` lines name.
pub open spec fn wires_of(all: Seq<Seq<char>>, n: nat) -> Seq<(Seq<char>, Bit)>
    decreases n,
{
    if n == 0 {
        Seq::empty()
    } else {
        put(
            wires_of(all, (n - 1) as nat),
            all[n - 1].take(3),
            if all[n - 1][5] == '1' {
                1u8
            } else {
                0u8
            },
        )
    }
}

/// The wires that the text names before its first empty line, and the gates
/// that it writes after it; nothing where a line can be read as neither.
pub fn parse(input: &str) -> (result: Option<(Wires, Vec<Gate>)>)
    ensures
        result is Some <==> exists|wires: int| is_system(lines_of(input@), wires),
        result matches Some(found) ==> exists|wires: int|
            {
                &&& #[trigger] is_system(lines_of(input@), wires)
                &&& found.0@ == wires_of(lines_of(input@), wires as nat)
                &&& found.1.len() == if wires < lines_of(input@).len() {
                    lines_of(input@).len() - wires - 1
                } else {
                    0
                }
                &&& forall|g: int|
                    0 <= g < found.1.len() ==> is_gate_of(
                        lines_of(input@)[wires + 1 + g],
                        #[trigger] found.1[g],
                    )
            },
{
    let rows = lines(input);
    let ghost all = views(rows@);
    let mut wires = Wires::new();
    let mut i: usize = 0;
    while i < rows.len() && rows[i].len() > 0
        invariant
            i <= rows.len(),
            all == views(rows@),
            all == lines_of(input@),
            forall|j: int| 0 <= j < i ==> (#[trigger] all[j]).len() > 0 && is_wire_line(all[j]),
            wires@ == wires_of(all, i as nat),
        decreases rows.len() - i,
    {
        let line = &rows[i];
        assert(all[i as int] == line@);
        if line.len() < 6 {
            proof {
                assert forall|count: int| !is_system(all, count) by {
                    if is_system(all, count) {
                        if count > i {
                            assert(is_wire_line(all[i as int]));
                        } else if count < i {
                            assert(all[count].len() > 0);
                        } else {
                            assert(all[count].len() == 0);
                        }
                    }
                }
            }
            return None;
        }
        let name = copy_range(line, 0, 3);
        assert(name@ == line@.take(3));
        let bit: Bit = if line[5] == '1' {
            1
        } else {
            0
        };
        wires.insert(name, bit);
        i += 1;
    }
    let ghost count = i as int;
    proof {
        if i < rows.len() {
            assert(all[i as int] == rows[i as int]@);
        }
        assert forall|other: int| is_system(all, other) implies other == count by {
            if other > count {
                if count < all.len() {
                    assert(all[count].len() > 0);
                }
            } else if other < count {
                assert(all[other].len() > 0);
            }
        }
    }
    let mut gates: Vec<Gate> = Vec::new();
    if i < rows.len() {
        i += 1;
    }
    let first = i;
    while i < rows.len()
        invariant
            first <= i <= rows.len(),
            count <= rows.len(),
            first == if count < rows.len() {
                count + 1
            } else {
                count
            },
            all == views(rows@),
            all == lines_of(input@),
            forall|other: int| is_system(all, other) ==> other == count,
            forall|j: int| 0 <= j < count ==> (#[trigger] all[j]).len() > 0 && is_wire_line(all[j]),
            count < all.len() ==> all[count].len() == 0,
            wires@ == wires_of(all, count as nat),
            gates.len() == i - first,
            forall|j: int| count < j < i ==> is_gate_line(#[trigger] all[j]),
            forall|g: int| 0 <= g < gates.len() ==> is_gate_of(all[first + g], #[trigger] gates[g]),
        decreases rows.len() - i,
    {
        assert(all[i as int] == rows[i as int]@);
        match parse_gate(&rows[i]) {
            None => {
                proof {
                    if is_system(all, count) {
                        assert(is_gate_line(all[i as int]));
                    }
                }
                return None;
            },
            Some(gate) => {
                let ghost before = gates@;
                gates.push(gate);
                assert forall|g: int| 0 <= g < gates.len() implies is_gate_of(
                    all[first + g],
                    #[trigger] gates[g],
                ) by {
                    if g < before.len() {
                        assert(gates[g] == before[g]);
                    }
                }
            },
        }
        i += 1;
    }
    assert(is_system(all, count));
    Some((wires, gates))
}

/// Whether the names stand in the order of a dictionary.
pub open spec fn in_order(names: Seq<Seq<char>>) -> bool {
    forall|i: int, j: int| 0 <= i < j < names.len() ==> !comes_first(#[trigger] names[j], #[trigger] names[i])
}

/// The names in the order of a dictionary: each as often as it is given.
pub fn sort_names(names: Vec<Vec<char>>) -> (sorted: Vec<Vec<char>>)
    ensures
        sorted.len() == names.len(),
        in_order(views(sorted@)),
        views(sorted@).to_multiset() == views(names@).to_multiset(),
        forall|i: int| 0 <= i < sorted.len() ==> views(names@).contains(#[trigger] views(sorted@)[i]),
{
    let mut sorted: Vec<Vec<char>> = Vec::new();
    let mut rest = names;
    let ghost all = views(rest@);
    let n = rest.len();
    proof {
        lemma_none_counted(views(sorted@));
        assert(views(sorted@).to_multiset().add(all.to_multiset()) =~= all.to_multiset());
    }
    while rest.len() > 0
        invariant
            sorted.len() + rest.len() == n,
            in_order(views(sorted@)),
            views(sorted@).to_multiset().add(views(rest@).to_multiset()) == all.to_multiset(),
            forall|i: int| 0 <= i < sorted.len() ==> all.contains(#[trigger] views(sorted@)[i]),
            forall|i: int| 0 <= i < rest.len() ==> all.contains(#[trigger] views(rest@)[i]),
        decreases rest.len(),
    {
        let ghost left = views(rest@);
        let name = rest.pop().unwrap();
        assert(name@ == left[left.len() - 1]);
        proof {
            assert(left == views(rest@).push(name@));
            vstd::seq_lib::to_multiset_build(views(rest@), name@);
        }
        assert forall|i: int| 0 <= i < rest.len() implies all.contains(#[trigger] views(rest@)[i]) by {
            assert(views(rest@)[i] == left[i]);
        }
        let mut at: usize = sorted.len();
        while at > 0 && is_before(&name, &sorted[at - 1])
            invariant
                at <= sorted.len(),
                forall|j: int| at <= j < sorted.len() ==> comes_first(name@, #[trigger] views(sorted@)[j]),
            decreases at,
        {
            assert(views(sorted@)[at - 1] == sorted[at - 1]@);
            at -= 1;
        }
        proof {
            if at > 0 {
                assert(views(sorted@)[at - 1] == sorted[at - 1]@);
            }
        }
        let ghost before = views(sorted@);
        sorted.insert(at, name);
        proof {
            let after = views(sorted@);
            assert(after == before.insert(at as int, name@));
            assert(after.to_multiset() == before.to_multiset().insert(name@)) by {
                assert(after.remove(at as int) == before);
                assert(after[at as int] == name@);
                vstd::seq_lib::to_multiset_remove(after, at as int);
                after.to_multiset_ensures();
                assert(after.contains(name@));
                assert(after.to_multiset() =~= after.to_multiset().remove(name@).insert(name@));
            }
            assert(after.to_multiset().add(views(rest@).to_multiset()) =~= before.to_multiset().add(
                left.to_multiset(),
            ));
            assert forall|i: int, j: int| 0 <= i < j < after.len() implies !comes_first(
                #[trigger] after[j],
                #[trigger] after[i],
            ) by {
                if j < at {
                    assert(after[i] == before[i] && after[j] == before[j]);
                } else if j == at {
                    assert(after[i] == before[i]);
                    lemma_before_stays(before, name@, i, at as int);
                } else if i < at {
                    assert(after[i] == before[i] && after[j] == before[j - 1]);
                } else if i == at {
                    assert(after[j] == before[j - 1]);
                    assert(comes_first(name@, before[j - 1]));
                    crate::text::lemma_comes_first_one_way(name@, before[j - 1]);
                } else {
                    assert(after[i] == before[i - 1] && after[j] == before[j - 1]);
                }
            }
            assert forall|i: int| 0 <= i < after.len() implies all.contains(#[trigger] after[i]) by {
                if i < at {
                    assert(after[i] == before[i]);
                } else if i > at {
                    assert(after[i] == before[i - 1]);
                }
            }
        }
    }
    proof {
        lemma_none_counted(views(rest@));
        assert(views(sorted@).to_multiset().add(views(rest@).to_multiset()) =~= views(
            sorted@,
        ).to_multiset());
    }
    sorted
}

/// No name stands in a list without names.
proof fn lemma_none_counted(names: Seq<Seq<char>>)
    requires
        names.len() == 0,
    ensures
        names.to_multiset() == vstd::multiset::Multiset::<Seq<char>>::empty(),
{
    names.to_multiset_ensures();
    vstd::multiset::lemma_multiset_empty_len(names.to_multiset());
}

/// A name that does not come before the name at place `at - 1` of names in
/// order does not come before any name before it.
proof fn lemma_before_stays(names: Seq<Seq<char>>, name: Seq<char>, i: int, at: int)
    requires
        in_order(names),
        0 <= i < at <= names.len(),
        !comes_first(name, names[at - 1]),
    ensures
        !comes_first(name, names[i]),
{
    if i < at - 1 {
        assert(!comes_first(names[at - 1], names[i]));
        if comes_first(name, names[i]) {
            crate::text::lemma_comes_first_total(names[at - 1], name);
            if names[at - 1] == name {
            } else {
                crate::text::lemma_comes_first_chain(names[at - 1], name, names[i]);
            }
        }
    }
}

/// Whether the wires and the gates are those that the lines write: the
/// wires before the first empty line, and the gates after it.
pub open spec fn is_read_as(all: Seq<Seq<char>>, wires: Seq<(Seq<char>, Bit)>, gates: Seq<Gate>) -> bool {
    exists|count: int|
        {
            &&& #[trigger] is_system(all, count)
            &&& wires == wires_of(all, count as nat)
            &&& gates.len() == if count < all.len() {
                all.len() - count - 1
            } else {
                0
            }
            &&& forall|g: int|
                0 <= g < gates.len() ==> is_gate_of(all[count + 1 + g], #[trigger] gates[g])
        }
}

/// The names with a comma between each two.
pub open spec fn comma_joined(names: Seq<Seq<char>>) -> Seq<char>
    decreases names.len(),
{
    if names.len() == 0 {
        Seq::empty()
    } else if names.len() == 1 {
        names[0]
    } else {
        comma_joined(names.drop_last()) + seq![','] + names.last()
    }
}

/// Whether `sorted` holds the names of `names`, each as often as they do,
/// in the order of a dictionary.
pub open spec fn is_sorted_from(names: Seq<Seq<char>>, sorted: Seq<Seq<char>>) -> bool {
    &&& sorted.len() == names.len()
    &&& in_order(sorted)
    &&& sorted.to_multiset() == names.to_multiset()
}

/// Whether the number is what the gates put out for the wires, and the
/// text the names of the wires that the search for swaps finds for the
/// gates, in the order of a dictionary and with commas between them.
pub open spec fn is_answer(
    all: Seq<Seq<char>>,
    wires: Seq<(Seq<char>, Bit)>,
    gates: Seq<Gate>,
    number: u64,
    text: Seq<char>,
) -> bool {
    &&& is_read_as(all, wires, gates)
    &&& Some(number) == system_output(gates, wires)
    &&& match hunt(shapes(gates), 1, Seq::empty()).found {
        Some(names) => exists|sorted: Seq<Seq<char>>| #[trigger]
            is_sorted_from(names, sorted) && text == comma_joined(sorted),
        None => false,
    }
}

/// Whether the wires and the gates of the lines have no answer: the gates
/// put out no number, or the search for swaps finds nothing.
pub open spec fn has_no_answer(all: Seq<Seq<char>>, wires: Seq<(Seq<char>, Bit)>, gates: Seq<Gate>) -> bool {
    is_read_as(all, wires, gates) && (system_output(gates, wires) is None || hunt(
        shapes(gates),
        1,
        Seq::empty(),
    ).found is None)
}

/// The number that the gates of the text put out for its wires, and the
/// names of the wires that have to be swapped for the gates to add right;
/// nothing where the text writes no wires and gates, where the gates put
/// out no number, or where the search for swaps finds nothing.
pub fn solve(input: &str) -> (result: Option<(u64, Vec<char>)>)
    ensures
        match result {
            Some(found) => exists|wires: Seq<(Seq<char>, Bit)>, gates: Seq<Gate>| #[trigger]
                is_answer(lines_of(input@), wires, gates, found.0, found.1@),
            None => (forall|count: int| !is_system(lines_of(input@), count)) || exists|
                wires: Seq<(Seq<char>, Bit)>,
                gates: Seq<Gate>,
            | #[trigger] has_no_answer(lines_of(input@), wires, gates),
        },
{
    let ghost all = lines_of(input@);
    let (wires, mut gates) = match parse(input) {
        None => {
            return None;
        },
        Some(found) => found,
    };
    let ghost read_wires = wires@;
    let ghost read_gates = gates@;
    assert(is_read_as(all, read_wires, read_gates));
    let part1 = match process_logic_system(&wires, &gates) {
        None => {
            assert(has_no_answer(all, read_wires, read_gates));
            return None;
        },
        Some(number) => number,
    };
    let none: Vec<Vec<char>> = Vec::new();
    assert(views(none@) =~= Seq::<Seq<char>>::empty());
    let names = match find_gates_to_swap(&mut gates, 1, &none) {
        None => {
            assert(has_no_answer(all, read_wires, read_gates));
            return None;
        },
        Some(names) => names,
    };
    let ghost found_names = views(names@);
    let part2 = sort_names(names);
    let ghost sorted = views(part2@);
    assert(is_sorted_from(found_names, sorted));
    let mut joined: Vec<char> = Vec::new();
    let mut i: usize = 0;
    assert(sorted.take(0) =~= Seq::<Seq<char>>::empty());
    while i < part2.len()
        invariant
            i <= part2.len(),
            sorted == views(part2@),
            joined@ == comma_joined(sorted.take(i as int)),
        decreases part2.len() - i,
    {
        let ghost before = joined@;
        if i > 0 {
            joined.push(',');
        }
        crate::text::append(&mut joined, &part2[i]);
        proof {
            let more = sorted.take(i + 1);
            assert(more.drop_last() =~= sorted.take(i as int));
            assert(more.last() == part2[i as int]@);
            if i == 0 {
                assert(more[0] == part2[0]@);
                assert(joined@ =~= part2[0]@);
            } else {
                assert(joined@ =~= before + seq![','] + part2[i as int]@);
            }
        }
        i += 1;
    }
    assert(sorted.take(i as int) == sorted);
    let result = Some((part1, joined));
    proof {
        assert(is_answer(all, read_wires, read_gates, result->Some_0.0, result->Some_0.1@));
    }
    result
}

} // verus!
