//! Typing through a chain of directional keypads over the preferred routes
//! alone. The sequence for the next keypad is not written out: it is held as
//! the counts of its pieces between two presses of `HOME`, since the arm is
//! back on `HOME` after each press and the pieces can be taken one by one.

use crate::keypad::catalog::{all_keys, catalogued, is_key, Keypad};
use crate::keypad::layout::{is_move, lemma_walk_is_moves, HOME};
use crate::keypad::presses::{arm_before, capped, lemma_all_sequences};
use crate::keypad::routes::extended;
use crate::text::{
    append, copy_range, lemma_split_on_nonempty, same_chars, split, split_on, views,
};
use vstd::prelude::*;

verus! {

/// The keys that get the arm over the preferred route from `from` to `to`
/// and press there.
pub open spec fn step_keys(keypad: &Keypad, from: char, to: char) -> Seq<char> {
    if from == to {
        seq![HOME]
    } else {
        keypad.best_route(from, to).push(HOME)
    }
}

impl Keypad {
    /// The sequence that types `sequence` on this keypad over the preferred
    /// routes, the arm starting on `HOME`.
    pub open spec fn expansion(&self, sequence: Seq<char>) -> Seq<char>
        decreases sequence.len(),
    {
        if sequence.len() == 0 {
            Seq::empty()
        } else {
            self.expansion(sequence.drop_last()) + step_keys(
                self,
                arm_before(sequence),
                sequence.last(),
            )
        }
    }

    /// The sequence that the human types to have `sequence` typed through
    /// `rounds` keypads like this one.
    pub open spec fn expanded(&self, sequence: Seq<char>, rounds: nat) -> Seq<char>
        decreases rounds,
    {
        if rounds == 0 {
            sequence
        } else {
            self.expansion(self.expanded(sequence, (rounds - 1) as nat))
        }
    }
}

/// The pieces of a sequence between its presses of `HOME`. Its last symbol
/// is taken to be a press and left out.
pub open spec fn fragments(sequence: Seq<char>) -> Seq<Seq<char>> {
    split_on(sequence.drop_last(), HOME)
}

/// The pieces, each followed by a press of `HOME`, one after the other.
pub open spec fn pressed(pieces: Seq<Seq<char>>) -> Seq<char>
    decreases pieces.len(),
{
    if pieces.len() == 0 {
        Seq::empty()
    } else {
        pressed(pieces.drop_last()) + pieces.last().push(HOME)
    }
}

/// The sum of `weight` over the pieces.
pub open spec fn sum_over(pieces: Seq<Seq<char>>, weight: spec_fn(Seq<char>) -> nat) -> nat
    decreases pieces.len(),
{
    if pieces.len() == 0 {
        0
    } else {
        sum_over(pieces.drop_last(), weight) + weight(pieces.last())
    }
}

/// Whether `sequence` ends with a press of `HOME`.
pub open spec fn ends_pressed(sequence: Seq<char>) -> bool {
    sequence.len() > 0 && sequence.last() == HOME
}

/// The sum over pieces that follow each other is the sum of the two sums.
pub proof fn lemma_sum_over_both(
    first: Seq<Seq<char>>,
    second: Seq<Seq<char>>,
    weight: spec_fn(Seq<char>) -> nat,
)
    ensures
        sum_over(first + second, weight) == sum_over(first, weight) + sum_over(second, weight),
    decreases second.len(),
{
    if second.len() == 0 {
        assert(first + second == first);
    } else {
        lemma_sum_over_both(first, second.drop_last(), weight);
        assert((first + second).drop_last() == first + second.drop_last());
        assert((first + second).last() == second.last());
    }
}

/// What follows a press is typed as if it stood alone.
pub proof fn lemma_expansion_after_press(keypad: &Keypad, first: Seq<char>, second: Seq<char>)
    requires
        first.len() == 0 || ends_pressed(first),
    ensures
        keypad.expansion(first + second) == keypad.expansion(first) + keypad.expansion(second),
    decreases second.len(),
{
    if second.len() == 0 {
        assert(first + second == first);
    } else {
        lemma_expansion_after_press(keypad, first, second.drop_last());
        assert((first + second).drop_last() == first + second.drop_last());
        assert((first + second).last() == second.last());
        assert(arm_before(first + second) == arm_before(second)) by {
            if second.len() > 1 {
                assert((first + second)[first.len() + second.len() - 2] == second[second.len() - 2]);
            } else if first.len() > 0 {
                assert((first + second)[first.len() - 1] == first.last());
            }
        }
    }
}

/// What types a sequence ends with a press and is no shorter than the
/// sequence.
pub proof fn lemma_expansion_ends_pressed(keypad: &Keypad, sequence: Seq<char>)
    requires
        sequence.len() > 0,
    ensures
        ends_pressed(keypad.expansion(sequence)),
        keypad.expansion(sequence).len() >= sequence.len(),
    decreases sequence.len(),
{
    if sequence.len() > 1 {
        lemma_expansion_ends_pressed(keypad, sequence.drop_last());
    }
}

/// The pieces of two sequences that end with a press, one after the other.
pub proof fn lemma_fragments_of_both(first: Seq<char>, second: Seq<char>)
    requires
        ends_pressed(first),
        second.len() > 0,
    ensures
        fragments(first + second) == fragments(first) + fragments(second),
    decreases second.len(),
{
    let rest = second.drop_last();
    assert((first + second).drop_last() == first + rest);
    lemma_split_after_press(first, rest);
}

proof fn lemma_split_after_press(first: Seq<char>, rest: Seq<char>)
    requires
        ends_pressed(first),
    ensures
        split_on(first + rest, HOME) == split_on(first.drop_last(), HOME) + split_on(rest, HOME),
    decreases rest.len(),
{
    let head = split_on(first.drop_last(), HOME);
    if rest.len() == 0 {
        assert(first + rest == first);
        assert(split_on(rest, HOME) == seq![Seq::<char>::empty()]);
        assert(head.push(Seq::<char>::empty()) == head + seq![Seq::<char>::empty()]);
    } else {
        let shorter = rest.drop_last();
        lemma_split_after_press(first, shorter);
        lemma_split_on_nonempty(shorter, HOME);
        assert((first + rest).drop_last() == first + shorter);
        assert((first + rest).last() == rest.last());
        let tail = split_on(shorter, HOME);
        let before = head + tail;
        assert(before.last() == tail.last());
        assert(before.drop_last() == head + tail.drop_last());
        if rest.last() == HOME {
            assert(before.push(Seq::<char>::empty()) == head + tail.push(Seq::<char>::empty()));
        } else {
            assert(before.drop_last().push(before.last().push(rest.last())) == head
                + tail.drop_last().push(tail.last().push(rest.last())));
        }
    }
}

/// A sequence is its pieces, each followed by a press.
pub proof fn lemma_pressed_fragments(body: Seq<char>)
    ensures
        pressed(split_on(body, HOME)) == body.push(HOME),
    decreases body.len(),
{
    if body.len() == 0 {
        let pieces = split_on(body, HOME);
        assert(pieces.drop_last() == Seq::<Seq<char>>::empty());
        assert(pressed(pieces.drop_last()) == Seq::<char>::empty());
        assert(pieces.last().push(HOME) == body.push(HOME));
    } else {
        let shorter = body.drop_last();
        lemma_pressed_fragments(shorter);
        lemma_split_on_nonempty(shorter, HOME);
        let rest = split_on(shorter, HOME);
        assert(pressed(rest) == pressed(rest.drop_last()) + rest.last().push(HOME));
        if body.last() == HOME {
            let pieces = rest.push(Seq::<char>::empty());
            assert(pieces.drop_last() == rest);
            assert(pressed(pieces) == pressed(rest) + Seq::<char>::empty().push(HOME));
            assert(shorter.push(HOME) + Seq::<char>::empty().push(HOME) == body.push(HOME));
        } else {
            let grown = rest.last().push(body.last());
            let pieces = rest.drop_last().push(grown);
            assert(pieces.drop_last() == rest.drop_last());
            assert(pieces.last() == grown);
            assert(pressed(rest.drop_last()) + rest.last().push(HOME) == shorter.push(HOME));
            assert(pressed(rest.drop_last()) + grown.push(HOME) == body.push(HOME)) by {
                let left = pressed(rest.drop_last()) + grown.push(HOME);
                let right = body.push(HOME);
                let known = pressed(rest.drop_last()) + rest.last().push(HOME);
                assert(left.len() == right.len());
                assert forall|i: int| 0 <= i < left.len() implies left[i] == right[i] by {
                    if i < shorter.len() {
                        assert(known[i] == shorter.push(HOME)[i]);
                        assert(left[i] == known[i]);
                    }
                }
            }
        }
    }
}

/// The weight of what types a piece and a press: the sum of `weight` over
/// its pieces.
pub open spec fn typed_alone(keypad: &Keypad, weight: spec_fn(Seq<char>) -> nat) -> spec_fn(
    Seq<char>,
) -> nat {
    |piece: Seq<char>| sum_over(fragments(keypad.expansion(piece.push(HOME))), weight)
}

/// The weight of a piece that counts its keys and the press after it.
pub open spec fn press_weight() -> spec_fn(Seq<char>) -> nat {
    |piece: Seq<char>| (piece.len() + 1) as nat
}

/// The weight that counts every piece once.
pub open spec fn unit_weight() -> spec_fn(Seq<char>) -> nat {
    |piece: Seq<char>| 1nat
}

/// The pieces of what types a sequence are, piece of the sequence by piece,
/// the pieces of what types that piece and a press: a sum over the one is
/// the sum over the other.
pub proof fn lemma_pieces_are_typed_alone(
    keypad: &Keypad,
    pieces: Seq<Seq<char>>,
    weight: spec_fn(Seq<char>) -> nat,
)
    requires
        pieces.len() > 0,
    ensures
        sum_over(fragments(keypad.expansion(pressed(pieces))), weight) == sum_over(
            pieces,
            typed_alone(keypad, weight),
        ),
    decreases pieces.len(),
{
    let alone = typed_alone(keypad, weight);
    let last = pieces.last().push(HOME);
    let head = pressed(pieces.drop_last());
    if pieces.len() == 1 {
        assert(pieces.drop_last() == Seq::<Seq<char>>::empty());
        assert(head == Seq::<char>::empty());
        assert(pressed(pieces) == last);
        assert(sum_over(pieces.drop_last(), alone) == 0);
    } else {
        lemma_pieces_are_typed_alone(keypad, pieces.drop_last(), weight);
        lemma_pressed_ends(pieces.drop_last());
        lemma_expansion_after_press(keypad, head, last);
        lemma_expansion_ends_pressed(keypad, head);
        lemma_expansion_ends_pressed(keypad, last);
        lemma_fragments_of_both(keypad.expansion(head), keypad.expansion(last));
        lemma_sum_over_both(
            fragments(keypad.expansion(head)),
            fragments(keypad.expansion(last)),
            weight,
        );
    }
}

proof fn lemma_pressed_ends(pieces: Seq<Seq<char>>)
    requires
        pieces.len() > 0,
    ensures
        ends_pressed(pressed(pieces)),
{
}

/// The lengths of the pieces, each with its press, add up to the length of
/// the sequence.
pub proof fn lemma_pressed_len(pieces: Seq<Seq<char>>)
    ensures
        sum_over(pieces, press_weight()) == pressed(pieces).len(),
        sum_over(pieces, unit_weight()) == pieces.len(),
    decreases pieces.len(),
{
    if pieces.len() > 0 {
        lemma_pressed_len(pieces.drop_last());
    }
}

/// A sequence without a press is a single piece.
pub proof fn lemma_split_without_press(body: Seq<char>)
    requires
        forall|i: int| 0 <= i < body.len() ==> body[i] != HOME,
    ensures
        split_on(body, HOME) == seq![body],
    decreases body.len(),
{
    if body.len() == 0 {
        assert(body == Seq::<char>::empty());
    } else {
        let shorter = body.drop_last();
        assert forall|i: int| 0 <= i < shorter.len() implies shorter[i] != HOME by {
            assert(shorter[i] == body[i]);
        }
        lemma_split_without_press(shorter);
        let rest = split_on(shorter, HOME);
        assert(rest == seq![shorter]);
        assert(rest.last() == shorter);
        assert(shorter.push(body.last()) == body);
        assert(rest.drop_last() == Seq::<Seq<char>>::empty());
        assert(rest.drop_last().push(body) == seq![body]);
        assert(body[body.len() - 1] != HOME);
    }
}

/// The preferred route between two buttons is made of moves.
pub proof fn lemma_best_route_is_moves(keypad: &Keypad, from: char, to: char)
    requires
        keypad.wf(),
        keypad.has_button(from),
        keypad.has_button(to),
    ensures
        forall|i: int| 0 <= i < keypad.best_route(from, to).len() ==> is_move(
            #[trigger] keypad.best_route(from, to)[i],
        ),
{
    let i = keypad.number_of(from);
    let j = keypad.number_of(to);
    let routes = keypad.routes(from, to);
    let best = keypad.best_route(from, to);
    assert(catalogued(keypad.grid_view(), keypad.buttons@, i, j));
    let n = choose|n: int| 0 <= n < routes.len() && #[trigger] routes[n] == best;
    assert(routes.contains(routes[n]));
    lemma_walk_is_moves(keypad.grid_view(), keypad.buttons[i].cell(), best);
}

/// What types a sequence of buttons is made of moves and presses, and has
/// one piece for every button of the sequence.
pub proof fn lemma_expansion_pieces(keypad: &Keypad, sequence: Seq<char>)
    requires
        keypad.wf(),
        keypad.has_button(HOME),
        keypad.has_buttons(sequence),
        sequence.len() > 0,
    ensures
        all_keys(keypad.expansion(sequence)),
        fragments(keypad.expansion(sequence)).len() == sequence.len(),
    decreases sequence.len(),
{
    let from = arm_before(sequence);
    let to = sequence.last();
    let head = keypad.expansion(sequence.drop_last());
    let keys = step_keys(keypad, from, to);
    if sequence.len() > 1 {
        assert(keypad.has_button(sequence[sequence.len() - 2]));
    }
    assert(keypad.has_button(sequence[sequence.len() - 1]));
    lemma_best_route_is_moves(keypad, from, to);
    let body = keys.drop_last();
    assert(forall|i: int| 0 <= i < body.len() ==> body[i] != HOME) by {
        if from != to {
            assert(body == keypad.best_route(from, to));
            assert forall|i: int| 0 <= i < body.len() implies body[i] != HOME by {
                assert(is_move(keypad.best_route(from, to)[i]));
            }
        }
    }
    lemma_split_without_press(body);
    assert(all_keys(keys)) by {
        assert forall|i: int| 0 <= i < keys.len() implies is_key(#[trigger] keys[i]) by {
            if from != to && i < keys.len() - 1 {
                assert(keys[i] == keypad.best_route(from, to)[i]);
                assert(is_move(keypad.best_route(from, to)[i]));
            }
        }
    }
    if sequence.len() == 1 {
        assert(sequence.drop_last() == Seq::<char>::empty());
        assert(head + keys == keys);
    } else {
        assert forall|i: int| 0 <= i < sequence.drop_last().len() implies keypad.has_button(
            #[trigger] sequence.drop_last()[i],
        ) by {
            assert(sequence.drop_last()[i] == sequence[i]);
        }
        lemma_expansion_pieces(keypad, sequence.drop_last());
        lemma_expansion_ends_pressed(keypad, sequence.drop_last());
        lemma_fragments_of_both(head, keys);
        assert forall|i: int| 0 <= i < (head + keys).len() implies is_key(#[trigger] (head + keys)[i]) by {
            if i < head.len() {
                assert((head + keys)[i] == head[i]);
            } else {
                assert((head + keys)[i] == keys[i - head.len()]);
            }
        }
    }
}

/// Every round makes a sequence no shorter, keeps it a sequence of moves
/// and presses, and lets it end with a press.
pub proof fn lemma_expanded(keypad: &Keypad, sequence: Seq<char>, rounds: nat, more: nat)
    requires
        keypad.wf(),
        keypad.drives_itself(),
        all_keys(sequence),
        ends_pressed(sequence),
        rounds <= more,
    ensures
        all_keys(keypad.expanded(sequence, rounds)),
        ends_pressed(keypad.expanded(sequence, rounds)),
        keypad.expanded(sequence, rounds).len() <= keypad.expanded(sequence, more).len(),
    decreases more,
{
    if more > 0 {
        if rounds < more {
            lemma_expanded(keypad, sequence, rounds, (more - 1) as nat);
        }
        lemma_expanded(keypad, sequence, (more - 1) as nat, (more - 1) as nat);
        let before = keypad.expanded(sequence, (more - 1) as nat);
        crate::keypad::presses::lemma_keys_are_buttons(keypad, before);
        lemma_expansion_pieces(keypad, before);
        lemma_expansion_ends_pressed(keypad, before);
    }
}

/// One piece of a sequence with the number of times that it occurs.
pub struct SubSequenceCount {
    pub sub_sequence: Vec<char>,
    pub count: u64,
}

/// The pieces of a sequence, each with the number of times that it occurs.
pub struct SubSequenceCounts {
    pub entries: Vec<SubSequenceCount>,
}

/// The sum over the entries of the count times the weight of the piece.
pub open spec fn weighed(entries: Seq<SubSequenceCount>, weight: spec_fn(Seq<char>) -> nat) -> nat
    decreases entries.len(),
{
    if entries.len() == 0 {
        0
    } else {
        weighed(entries.drop_last(), weight) + (entries.last().count as nat) * weight(
            entries.last().sub_sequence@,
        )
    }
}

proof fn lemma_weighed_update(
    entries: Seq<SubSequenceCount>,
    i: int,
    entry: SubSequenceCount,
    weight: spec_fn(Seq<char>) -> nat,
)
    requires
        0 <= i < entries.len(),
        entry.sub_sequence@ == entries[i].sub_sequence@,
    ensures
        weighed(entries.update(i, entry), weight) + entries[i].count * weight(entry.sub_sequence@)
            == weighed(entries, weight) + entry.count * weight(entry.sub_sequence@),
    decreases entries.len(),
{
    let after = entries.update(i, entry);
    if i == entries.len() - 1 {
        assert(after.drop_last() == entries.drop_last());
    } else {
        lemma_weighed_update(entries.drop_last(), i, entry, weight);
        assert(after.drop_last() == entries.drop_last().update(i, entry));
        assert(after.last() == entries.last());
    }
}

proof fn lemma_count_in_total(entries: Seq<SubSequenceCount>, i: int)
    requires
        0 <= i < entries.len(),
    ensures
        entries[i].count <= weighed(entries, unit_weight()),
    decreases entries.len(),
{
    if i < entries.len() - 1 {
        lemma_count_in_total(entries.drop_last(), i);
    }
    assert(entries.last().count * unit_weight()(entries.last().sub_sequence@) == entries.last().count);
}

proof fn lemma_weighed_alike(
    entries: Seq<SubSequenceCount>,
    one: spec_fn(Seq<char>) -> nat,
    other: spec_fn(Seq<char>) -> nat,
)
    requires
        forall|i: int| 0 <= i < entries.len() ==> one((#[trigger] entries[i]).sub_sequence@) == other(entries[i].sub_sequence@),
    ensures
        weighed(entries, one) == weighed(entries, other),
    decreases entries.len(),
{
    if entries.len() > 0 {
        assert forall|i: int| 0 <= i < entries.drop_last().len() implies one(
            (#[trigger] entries.drop_last()[i]).sub_sequence@,
        ) == other(entries.drop_last()[i].sub_sequence@) by {
            assert(entries.drop_last()[i] == entries[i]);
        }
        lemma_weighed_alike(entries.drop_last(), one, other);
        assert(entries.last() == entries[entries.len() - 1]);
    }
}

proof fn lemma_weighed_grows(entries: Seq<SubSequenceCount>, n: int, weight: spec_fn(Seq<char>) -> nat)
    requires
        0 <= n <= entries.len(),
    ensures
        weighed(entries.take(n), weight) <= weighed(entries, weight),
    decreases entries.len() - n,
{
    if n == entries.len() {
        assert(entries.take(n) == entries);
    } else {
        lemma_weighed_grows(entries, n + 1, weight);
        assert(entries.take(n + 1).drop_last() == entries.take(n));
    }
}

impl SubSequenceCounts {
    /// The number of pieces that are counted.
    pub open spec fn total(&self) -> nat {
        weighed(self.entries@, unit_weight())
    }

    /// The length of the sequence whose pieces are counted.
    pub open spec fn presses(&self) -> nat {
        weighed(self.entries@, press_weight())
    }

    /// Whether these are the counts of the pieces of `sequence`: whatever
    /// the weight of a piece, the weights add up to the same.
    pub open spec fn counts(&self, sequence: Seq<char>) -> bool {
        forall|weight: spec_fn(Seq<char>) -> nat| #[trigger]
            weighed(self.entries@, weight) == sum_over(fragments(sequence), weight)
    }

    /// Whether every piece is made of moves and presses.
    pub open spec fn keyed(&self) -> bool {
        forall|i: int| 0 <= i < self.entries.len() ==> all_keys((#[trigger] self.entries[i]).sub_sequence@)
    }

    /// Counts of nothing.
    pub fn new() -> (counts: SubSequenceCounts)
        ensures
            counts.entries.len() == 0,
    {
        SubSequenceCounts { entries: Vec::new() }
    }

    /// Counts `count` more of `piece`.
    fn add(&mut self, piece: Vec<char>, count: u64)
        requires
            old(self).total() + count <= u64::MAX,
        ensures
            forall|weight: spec_fn(Seq<char>) -> nat| #[trigger]
                weighed(final(self).entries@, weight) == weighed(old(self).entries@, weight) + count
                    * weight(piece@),
            old(self).keyed() && all_keys(piece@) ==> final(self).keyed(),
    {
        let ghost before = self.entries@;
        let mut i: usize = 0;
        while i < self.entries.len()
            invariant
                i <= self.entries.len(),
                self.entries@ == before,
                before == old(self).entries@,
                old(self).total() + count <= u64::MAX,
            decreases self.entries.len() - i,
        {
            if same_chars(&self.entries[i].sub_sequence, &piece) {
                proof {
                    lemma_count_in_total(before, i as int);
                }
                let total = self.entries[i].count + count;
                self.entries[i].count = total;
                proof {
                    let entry = self.entries@[i as int];
                    assert(self.entries@ == before.update(i as int, entry));
                    assert forall|weight: spec_fn(Seq<char>) -> nat| #[trigger]
                        weighed(self.entries@, weight) == weighed(before, weight) + count * weight(
                            piece@,
                        ) by {
                        lemma_weighed_update(before, i as int, entry, weight);
                        assert(entry.count * weight(piece@) == before[i as int].count * weight(piece@)
                            + count * weight(piece@)) by (nonlinear_arith)
                            requires
                                entry.count == before[i as int].count + count,
                        ;
                    }
                }
                return;
            }
            i += 1;
        }
        let ghost entry = SubSequenceCount { sub_sequence: piece, count };
        self.entries.push(SubSequenceCount { sub_sequence: piece, count });
        proof {
            assert(self.entries@ == before.push(entry));
            assert(self.entries@.drop_last() == before);
        }
    }

    /// The length of the sequence whose pieces are counted, where it fits
    /// in 64 bits.
    pub fn total_presses(&self) -> (total: Option<u64>)
        ensures
            total is Some <==> self.presses() <= u64::MAX,
            total matches Some(presses) ==> presses == self.presses(),
    {
        let mut total: u64 = 0;
        let mut i: usize = 0;
        assert(self.entries@.take(0) == Seq::<SubSequenceCount>::empty());
        while i < self.entries.len()
            invariant
                i <= self.entries.len(),
                total == weighed(self.entries@.take(i as int), press_weight()),
            decreases self.entries.len() - i,
        {
            let entry = &self.entries[i];
            proof {
                assert(self.entries@.take(i + 1).drop_last() == self.entries@.take(i as int));
                assert(self.entries@.take(i + 1).last() == *entry);
                lemma_weighed_grows(self.entries@, i + 1, press_weight());
                assert(press_weight()(entry.sub_sequence@) == entry.sub_sequence@.len() + 1);
            }
            let length = entry.sub_sequence.len();
            if length as u64 == u64::MAX {
                proof {
                    if entry.count == 0 {
                    } else {
                        assert(entry.count * (length + 1) > u64::MAX) by (nonlinear_arith)
                            requires
                                entry.count >= 1,
                                length + 1 > u64::MAX,
                        ;
                    }
                }
                if entry.count == 0 {
                    assert(entry.count * (length + 1) == 0) by (nonlinear_arith)
                        requires
                            entry.count == 0,
                    ;
                    i += 1;
                    continue;
                }
                return None;
            }
            let weight = match (length as u64 + 1).checked_mul(entry.count) {
                None => {
                    proof {
                        assert(entry.count * (length + 1) == (length + 1) * entry.count)
                            by (nonlinear_arith);
                    }
                    return None;
                },
                Some(weight) => weight,
            };
            proof {
                assert(entry.count * (length + 1) == (length + 1) * entry.count) by (nonlinear_arith);
            }
            total = match total.checked_add(weight) {
                None => {
                    return None;
                },
                Some(total) => total,
            };
            i += 1;
        }
        assert(self.entries@.take(i as int) == self.entries@);
        Some(total)
    }
}

/// Counts `count` more of every piece of `button_sequence`, whose last
/// symbol is taken to be a press.
pub fn update_sub_sequence_count_with_sequence(
    sub_sequence_counts: &mut SubSequenceCounts,
    button_sequence: Vec<char>,
    count: u64,
)
    requires
        button_sequence.len() > 0,
        old(sub_sequence_counts).total() + count * fragments(button_sequence@).len() <= u64::MAX,
    ensures
        forall|weight: spec_fn(Seq<char>) -> nat| #[trigger]
            weighed(final(sub_sequence_counts).entries@, weight) == weighed(
                old(sub_sequence_counts).entries@,
                weight,
            ) + count * sum_over(fragments(button_sequence@), weight),
        old(sub_sequence_counts).keyed() && all_keys(button_sequence@)
            ==> final(sub_sequence_counts).keyed(),
{
    let body = copy_range(&button_sequence, 0, button_sequence.len() - 1);
    assert(body@ == button_sequence@.drop_last());
    let mut pieces = split(&body, HOME);
    let ghost all = views(pieces@);
    let ghost before = sub_sequence_counts.entries@;
    proof {
        lemma_split_keys(body@);
        lemma_pressed_len(all);
    }
    while pieces.len() > 0
        invariant
            before == old(sub_sequence_counts).entries@,
            all == fragments(button_sequence@),
            views(pieces@).len() <= all.len(),
            views(pieces@) == all.take(pieces.len() as int),
            all_keys(body@) ==> forall|i: int| 0 <= i < all.len() ==> all_keys(#[trigger] all[i]),
            old(sub_sequence_counts).keyed() && all_keys(body@) ==> sub_sequence_counts.keyed(),
            weighed(before, unit_weight()) + count * all.len() <= u64::MAX,
            forall|weight: spec_fn(Seq<char>) -> nat| #[trigger]
                weighed(sub_sequence_counts.entries@, weight) + count * sum_over(
                    views(pieces@),
                    weight,
                ) == weighed(before, weight) + count * sum_over(all, weight),
        decreases pieces.len(),
    {
        let ghost left = views(pieces@);
        let ghost entries = sub_sequence_counts.entries@;
        let ghost n = pieces.len() as int;
        let piece = pieces.pop().unwrap();
        proof {
            assert(views(pieces@) == left.drop_last());
            assert(left.last() == piece@);
            assert(left.last() == all[n - 1]);
            lemma_pressed_len(left);
            lemma_pressed_len(all);
            assert(weighed(entries, unit_weight()) + count * sum_over(left, unit_weight())
                == weighed(before, unit_weight()) + count * sum_over(all, unit_weight()));
            assert(count * left.len() >= count) by (nonlinear_arith)
                requires
                    left.len() >= 1,
            ;
        }
        sub_sequence_counts.add(piece, count);
        proof {
            assert forall|weight: spec_fn(Seq<char>) -> nat| #[trigger]
                weighed(sub_sequence_counts.entries@, weight) + count * sum_over(
                    views(pieces@),
                    weight,
                ) == weighed(before, weight) + count * sum_over(all, weight) by {
                assert(weighed(entries, weight) + count * sum_over(left, weight) == weighed(
                    before,
                    weight,
                ) + count * sum_over(all, weight));
                assert(count * sum_over(left, weight) == count * sum_over(left.drop_last(), weight)
                    + count * weight(piece@)) by (nonlinear_arith)
                    requires
                        sum_over(left, weight) == sum_over(left.drop_last(), weight) + weight(piece@),
                ;
            }
            assert(views(pieces@) == all.take(pieces.len() as int));
        }
    }
    proof {
        assert(views(pieces@) == Seq::<Seq<char>>::empty());
        assert forall|weight: spec_fn(Seq<char>) -> nat| #[trigger]
            weighed(sub_sequence_counts.entries@, weight) == weighed(before, weight) + count
                * sum_over(all, weight) by {
            assert(sum_over(views(pieces@), weight) == 0);
            assert(weighed(sub_sequence_counts.entries@, weight) + count * sum_over(
                views(pieces@),
                weight,
            ) == weighed(before, weight) + count * sum_over(all, weight));
            assert(count * sum_over(views(pieces@), weight) == 0) by (nonlinear_arith)
                requires
                    sum_over(views(pieces@), weight) == 0,
            ;
        }
        if all_keys(button_sequence@) {
            assert(all_keys(body@)) by {
                assert forall|i: int| 0 <= i < body@.len() implies is_key(#[trigger] body@[i]) by {
                    assert(body@[i] == button_sequence@[i]);
                }
            }
        }
    }
}

/// The pieces of a sequence of moves and presses are made of moves and
/// presses.
proof fn lemma_split_keys(body: Seq<char>)
    ensures
        all_keys(body) ==> forall|i: int|
            0 <= i < split_on(body, HOME).len() ==> all_keys(#[trigger] split_on(body, HOME)[i]),
    decreases body.len(),
{
    if body.len() > 0 && all_keys(body) {
        let shorter = body.drop_last();
        assert(all_keys(shorter)) by {
            assert forall|i: int| 0 <= i < shorter.len() implies is_key(#[trigger] shorter[i]) by {
                assert(shorter[i] == body[i]);
            }
        }
        lemma_split_keys(shorter);
        lemma_split_on_nonempty(shorter, HOME);
        let rest = split_on(shorter, HOME);
        let pieces = split_on(body, HOME);
        assert forall|i: int| 0 <= i < pieces.len() implies all_keys(#[trigger] pieces[i]) by {
            if i < rest.len() - 1 {
                assert(pieces[i] == rest[i]);
            } else if body.last() == HOME {
                if i == rest.len() - 1 {
                    assert(pieces[i] == rest[i]);
                }
            } else {
                let grown = rest.last().push(body.last());
                assert(pieces[i] == grown);
                assert(all_keys(rest[rest.len() - 1]));
                assert forall|t: int| 0 <= t < grown.len() implies is_key(#[trigger] grown[t]) by {
                    if t < rest.last().len() {
                        assert(grown[t] == rest.last()[t]);
                    } else {
                        assert(is_key(body[body.len() - 1]));
                    }
                }
            }
        }
    }
}

/// One remembered sequence: what types `sub_sequence`.
pub struct MemoEntry {
    pub sub_sequence: Vec<char>,
    pub sequence: Vec<char>,
}

/// The sequences that have been worked out so far.
pub struct SequenceMemo {
    pub entries: Vec<MemoEntry>,
}

impl SequenceMemo {
    /// The invariant of a memo that serves `keypad`: every entry holds what
    /// types its sub-sequence on that keypad, and no sub-sequence has two
    /// entries.
    pub open spec fn wf(&self, keypad: &Keypad) -> bool {
        &&& forall|i: int|
            0 <= i < self.entries.len() ==> (#[trigger] self.entries[i]).sequence@
                == keypad.expansion(self.entries[i].sub_sequence@)
        &&& forall|i: int, j: int|
            0 <= i < j < self.entries.len() ==> (#[trigger] self.entries[i]).sub_sequence@ != (
            #[trigger] self.entries[j]).sub_sequence@
    }

    /// Whether this memo is `before` with entries added at its end.
    pub open spec fn grown_from(&self, before: &SequenceMemo) -> bool {
        &&& before.entries.len() <= self.entries.len()
        &&& forall|i: int|
            0 <= i < before.entries.len() ==> #[trigger] self.entries[i] == before.entries[i]
    }

    /// A memo without entries.
    pub fn new() -> (memo: SequenceMemo)
        ensures
            memo.entries.len() == 0,
    {
        SequenceMemo { entries: Vec::new() }
    }

    /// Whether the memo holds an entry for `sub_sequence`.
    pub open spec fn holds(&self, sub_sequence: Seq<char>) -> bool {
        exists|i: int|
            0 <= i < self.entries.len() && (#[trigger] self.entries[i]).sub_sequence@ == sub_sequence
    }

    /// The place of the first entry for `sub_sequence`; nothing where the
    /// memo holds none.
    fn find(&self, sub_sequence: &Vec<char>) -> (found: Option<usize>)
        ensures
            found is Some <==> self.holds(sub_sequence@),
            found matches Some(i) ==> i < self.entries.len() && self.entries[i as int].sub_sequence@
                == sub_sequence@ && forall|j: int|
                0 <= j < i ==> (#[trigger] self.entries[j]).sub_sequence@ != sub_sequence@,
    {
        let mut i: usize = 0;
        while i < self.entries.len()
            invariant
                i <= self.entries.len(),
                forall|j: int| 0 <= j < i ==> (#[trigger] self.entries[j]).sub_sequence@ != sub_sequence@,
            decreases self.entries.len() - i,
        {
            if same_chars(&self.entries[i].sub_sequence, sub_sequence) {
                return Some(i);
            }
            i += 1;
        }
        None
    }
}

/// The least length among what the human types for each of `options`
/// through `rounds` keypads.
pub open spec fn least_expanded(keypad: &Keypad, options: Seq<Seq<char>>, rounds: nat) -> nat
    decreases options.len(),
{
    if options.len() == 0 {
        0
    } else if options.len() == 1 {
        keypad.expanded(options[0], rounds).len()
    } else {
        let rest = least_expanded(keypad, options.drop_last(), rounds);
        let last = keypad.expanded(options.last(), rounds).len();
        if last < rest {
            last
        } else {
            rest
        }
    }
}

impl Keypad {
    /// The sequence that types `sub_sequence` on this keypad over the
    /// preferred routes, the arm starting on `HOME`. It is taken from `cache`
    /// where it is found there, and the memo stays as it is; else it is
    /// worked out and remembered as one more entry at the end of the memo.
    pub fn get_min_sequence_for_sub_sequence(&self, sub_sequence: &Vec<char>, cache: &mut SequenceMemo) -> (sequence:
        Vec<char>)
        requires
            self.wf(),
            self.has_button(HOME),
            self.has_buttons(sub_sequence@),
            old(cache).wf(self),
        ensures
            sequence@ == self.expansion(sub_sequence@),
            final(cache).wf(self),
            final(cache).grown_from(old(cache)),
            final(cache).holds(sub_sequence@),
            old(cache).holds(sub_sequence@) ==> final(cache).entries@ == old(cache).entries@,
            !old(cache).holds(sub_sequence@) ==> {
                &&& final(cache).entries@.len() == old(cache).entries@.len() + 1
                &&& final(cache).entries@.drop_last() == old(cache).entries@
                &&& final(cache).entries@.last().sub_sequence@ == sub_sequence@
                &&& final(cache).entries@.last().sequence@ == sequence@
            },
    {
        if let Some(found) = cache.find(sub_sequence) {
            let output = &cache.entries[found].sequence;
            let copy = copy_range(output, 0, output.len());
            assert(copy@ == output@);
            return copy;
        }
        let mut sequence: Vec<char> = Vec::new();
        let mut from_button = HOME;
        let mut i: usize = 0;
        assert(sub_sequence@.take(0) == Seq::<char>::empty());
        while i < sub_sequence.len()
            invariant
                i <= sub_sequence.len(),
                self.wf(),
                self.has_buttons(sub_sequence@),
                self.has_button(from_button),
                from_button == if i == 0 {
                    HOME
                } else {
                    sub_sequence[i - 1]
                },
                sequence@ == self.expansion(sub_sequence@.take(i as int)),
            decreases sub_sequence.len() - i,
        {
            let to_button = sub_sequence[i];
            let ghost longer = sub_sequence@.take(i + 1);
            let ghost before = sequence@;
            proof {
                assert(longer.drop_last() == sub_sequence@.take(i as int));
                assert(longer.last() == to_button);
                assert(arm_before(longer) == from_button);
                assert(self.has_button(sub_sequence@[i as int]));
            }
            if from_button != to_button {
                let a = self.find_button(from_button).unwrap();
                let b = self.find_button(to_button).unwrap();
                let best = &self.buttons[a].best_sequence_to_button[b];
                assert(best@ == self.best_route(from_button, to_button));
                append(&mut sequence, best);
            }
            sequence.push(HOME);
            assert(sequence@ == before + step_keys(self, from_button, to_button));
            from_button = to_button;
            i += 1;
        }
        assert(sub_sequence@.take(i as int) == sub_sequence@);
        let key = copy_range(sub_sequence, 0, sub_sequence.len());
        let copy = copy_range(&sequence, 0, sequence.len());
        assert(key@ == sub_sequence@);
        assert(copy@ == sequence@);
        let ghost before = cache.entries@;
        cache.entries.push(MemoEntry { sub_sequence: key, sequence: copy });
        proof {
            assert(cache.entries@.drop_last() == before);
            assert(cache.entries[cache.entries.len() - 1].sub_sequence@ == sub_sequence@);
            assert forall|n: int| 0 <= n < cache.entries.len() implies (
            #[trigger] cache.entries[n]).sequence@ == self.expansion(cache.entries[n].sub_sequence@) by {
                if n < before.len() {
                    assert(cache.entries[n] == before[n]);
                }
            }
            assert forall|a: int, b: int| 0 <= a < b < cache.entries.len() implies (
            #[trigger] cache.entries[a]).sub_sequence@ != (#[trigger] cache.entries[b]).sub_sequence@ by {
                assert(cache.entries[a] == before[a]);
                if b < before.len() {
                    assert(cache.entries[b] == before[b]);
                }
            }
        }
        sequence
    }

    /// The counts of the pieces of the sequence for the next keypad: every
    /// piece is typed with a press after it, and what types it is counted as
    /// often as the piece. Nothing where that sequence is too long for its
    /// pieces to be counted in 64 bits.
    pub fn get_sub_sequences_for_next_robot(
        &self,
        sub_sequences_with_counter: SubSequenceCounts,
        cache: &mut SequenceMemo,
    ) -> (result: Option<SubSequenceCounts>)
        requires
            self.wf(),
            self.drives_itself(),
            sub_sequences_with_counter.keyed(),
            old(cache).wf(self),
        ensures
            final(cache).wf(self),
            final(cache).grown_from(old(cache)),
            result is Some <==> sub_sequences_with_counter.presses() <= u64::MAX,
            result matches Some(next) ==> {
                &&& next.keyed()
                &&& forall|weight: spec_fn(Seq<char>) -> nat| #[trigger]
                    weighed(next.entries@, weight) == weighed(
                        sub_sequences_with_counter.entries@,
                        typed_alone(self, weight),
                    )
            },
    {
        let ghost entries = sub_sequences_with_counter.entries@;
        let ghost held = *cache;
        if sub_sequences_with_counter.total_presses().is_none() {
            return None;
        }
        let mut sub_sequence_count_result = SubSequenceCounts::new();
        let mut i: usize = 0;
        proof {
            assert(entries.take(0) == Seq::<SubSequenceCount>::empty());
            assert(sub_sequence_count_result.entries@ == Seq::<SubSequenceCount>::empty());
        }
        while i < sub_sequences_with_counter.entries.len()
            invariant
                i <= sub_sequences_with_counter.entries.len(),
                entries == sub_sequences_with_counter.entries@,
                self.wf(),
                self.drives_itself(),
                sub_sequences_with_counter.keyed(),
                cache.wf(self),
                cache.grown_from(&held),
                weighed(entries, press_weight()) <= u64::MAX,
                sub_sequence_count_result.keyed(),
                forall|weight: spec_fn(Seq<char>) -> nat| #[trigger]
                    weighed(sub_sequence_count_result.entries@, weight) == weighed(
                        entries.take(i as int),
                        typed_alone(self, weight),
                    ),
            decreases sub_sequences_with_counter.entries.len() - i,
        {
            let entry = &sub_sequences_with_counter.entries[i];
            let sub_sequence_with_a = extended(&entry.sub_sequence, HOME);
            let ghost piece = entry.sub_sequence@;
            let ghost done = entries.take(i as int);
            let ghost so_far = sub_sequence_count_result.entries@;
            proof {
                assert(all_keys(entries[i as int].sub_sequence@));
                assert(all_keys(sub_sequence_with_a@)) by {
                    assert forall|t: int| 0 <= t < sub_sequence_with_a@.len() implies is_key(
                        #[trigger] sub_sequence_with_a@[t],
                    ) by {
                        if t < piece.len() {
                            assert(sub_sequence_with_a@[t] == piece[t]);
                        }
                    }
                }
                crate::keypad::presses::lemma_keys_are_buttons(self, sub_sequence_with_a@);
                lemma_expansion_pieces(self, sub_sequence_with_a@);
                lemma_expansion_ends_pressed(self, sub_sequence_with_a@);
                assert(entries.take(i + 1).drop_last() == done);
                assert(entries.take(i + 1).last() == *entry);
                lemma_typed_alone_counts_keys(self, entries.take(i + 1));
                lemma_typed_alone_counts_keys(self, done);
                lemma_weighed_grows(entries, i + 1, press_weight());
                assert(press_weight()(piece) == piece.len() + 1);
            }
            let min_sequence = self.get_min_sequence_for_sub_sequence(&sub_sequence_with_a, cache);
            update_sub_sequence_count_with_sequence(
                &mut sub_sequence_count_result,
                min_sequence,
                entry.count,
            );
            proof {
                assert forall|weight: spec_fn(Seq<char>) -> nat| #[trigger]
                    weighed(sub_sequence_count_result.entries@, weight) == weighed(
                        entries.take(i + 1),
                        typed_alone(self, weight),
                    ) by {
                    assert(weighed(so_far, weight) == weighed(done, typed_alone(self, weight)));
                    assert(typed_alone(self, weight)(piece) == sum_over(
                        fragments(self.expansion(piece.push(HOME))),
                        weight,
                    ));
                }
            }
            i += 1;
        }
        proof {
            assert(entries.take(i as int) == entries);
        }
        Some(sub_sequence_count_result)
    }
}

/// Counting the pieces of what types a piece and a press counts the keys
/// of the piece and the press.
proof fn lemma_typed_alone_counts_keys(keypad: &Keypad, entries: Seq<SubSequenceCount>)
    requires
        keypad.wf(),
        keypad.drives_itself(),
        forall|i: int| 0 <= i < entries.len() ==> all_keys((#[trigger] entries[i]).sub_sequence@),
    ensures
        weighed(entries, typed_alone(keypad, unit_weight())) == weighed(entries, press_weight()),
{
    assert forall|i: int| 0 <= i < entries.len() implies typed_alone(keypad, unit_weight())(
        (#[trigger] entries[i]).sub_sequence@,
    ) == press_weight()(entries[i].sub_sequence@) by {
        let piece = entries[i].sub_sequence@;
        let pressed_piece = piece.push(HOME);
        assert(all_keys(pressed_piece)) by {
            assert forall|t: int| 0 <= t < pressed_piece.len() implies is_key(
                #[trigger] pressed_piece[t],
            ) by {
                if t < piece.len() {
                    assert(pressed_piece[t] == piece[t]);
                }
            }
        }
        crate::keypad::presses::lemma_keys_are_buttons(keypad, pressed_piece);
        lemma_expansion_pieces(keypad, pressed_piece);
        lemma_pressed_len(fragments(keypad.expansion(pressed_piece)));
    }
    lemma_weighed_alike(entries, typed_alone(keypad, unit_weight()), press_weight());
}

/// The counts of the pieces of a sequence add up to its length.
proof fn lemma_counts_presses(counts: &SubSequenceCounts, sequence: Seq<char>)
    requires
        counts.counts(sequence),
        ends_pressed(sequence),
    ensures
        counts.presses() == sequence.len(),
{
    let pieces = fragments(sequence);
    lemma_pressed_fragments(sequence.drop_last());
    lemma_pressed_len(pieces);
    assert(sequence.drop_last().push(HOME) == sequence);
    assert(weighed(counts.entries@, press_weight()) == sum_over(pieces, press_weight()));
}

/// The least number of presses that the human makes to have `numeric_code`
/// typed on the keypad `numeric` through `robots` keypads like
/// `directional`, where every keypad but the numeric one is driven over the
/// preferred routes alone; capped at the largest 64-bit number.
pub fn get_min_presses_for_numeric_code_with_directional_keypads(
    numeric: &Keypad,
    directional: &Keypad,
    numeric_code: &Vec<char>,
    robots: u8,
    cache: &mut SequenceMemo,
) -> (min_sequence_length: u64)
    requires
        numeric.wf(),
        numeric.has_button(HOME),
        numeric.has_buttons(numeric_code@),
        numeric_code.len() > 0,
        directional.wf(),
        directional.drives_itself(),
        old(cache).wf(directional),
    ensures
        min_sequence_length == capped(
            least_expanded(directional, numeric.all_sequences(numeric_code@), robots as nat),
        ),
        final(cache).wf(directional),
        final(cache).grown_from(old(cache)),
{
    let button_sequences = numeric.find_all_sequences(numeric_code);
    let ghost all = views(button_sequences@);
    let ghost held = *cache;
    proof {
        lemma_all_sequences(numeric, numeric_code@);
        lemma_all_sequences_end_pressed(numeric, numeric_code@);
    }
    let mut min_sequence_length: u64 = u64::MAX;
    let mut n: usize = 0;
    while n < button_sequences.len()
        invariant
            n <= button_sequences.len(),
            all == views(button_sequences@),
            all == numeric.all_sequences(numeric_code@),
            forall|i: int| 0 <= i < all.len() ==> all_keys(#[trigger] all[i]) && ends_pressed(all[i]),
            directional.wf(),
            directional.drives_itself(),
            cache.wf(directional),
            cache.grown_from(&held),
            n == 0 ==> min_sequence_length == u64::MAX,
            n > 0 ==> min_sequence_length == capped(
                least_expanded(directional, all.take(n as int), robots as nat),
            ),
        decreases button_sequences.len() - n,
    {
        let button_sequence = &button_sequences[n];
        let ghost start = button_sequence@;
        proof {
            assert(all[n as int] == start);
            assert(all.take(n + 1).drop_last() == all.take(n as int));
            assert(all.take(n + 1).last() == start);
            if n == 0 {
                assert(all.take(1)[0] == start);
            }
        }
        let mut sub_sequence_counts = SubSequenceCounts::new();
        let copy = copy_range(button_sequence, 0, button_sequence.len());
        assert(copy@ == start);
        proof {
            lemma_split_on_nonempty(start.drop_last(), HOME);
            assert(fragments(start).len() <= start.len()) by {
                lemma_pressed_fragments(start.drop_last());
                lemma_pressed_len(fragments(start));
                lemma_sum_at_least_count(fragments(start));
                assert(start.drop_last().push(HOME) == start);
            }
            assert(1 * fragments(start).len() == fragments(start).len());
            assert(sub_sequence_counts.entries@ == Seq::<SubSequenceCount>::empty());
            assert(sub_sequence_counts.total() == 0);
        }
        update_sub_sequence_count_with_sequence(&mut sub_sequence_counts, copy, 1);
        proof {
            assert forall|weight: spec_fn(Seq<char>) -> nat| #[trigger]
                weighed(sub_sequence_counts.entries@, weight) == sum_over(fragments(start), weight) by {
                assert(weighed(Seq::<SubSequenceCount>::empty(), weight) == 0);
                assert(1 * sum_over(fragments(start), weight) == sum_over(fragments(start), weight));
            }
        }
        let ghost mut typed = start;
        let mut round: u8 = 0;
        let mut too_long = false;
        while round < robots
            invariant
                round <= robots,
                directional.wf(),
                directional.drives_itself(),
                cache.wf(directional),
                cache.grown_from(&held),
                all_keys(start),
                ends_pressed(start),
                !too_long ==> typed == directional.expanded(start, round as nat),
                !too_long ==> sub_sequence_counts.counts(typed),
                !too_long ==> sub_sequence_counts.keyed(),
                !too_long ==> all_keys(typed) && ends_pressed(typed),
                too_long ==> directional.expanded(start, robots as nat).len() > u64::MAX,
            decreases robots - round,
        {
            if !too_long {
                proof {
                    lemma_expanded(directional, start, round as nat, robots as nat);
                    lemma_counts_presses(&sub_sequence_counts, typed);
                    lemma_pressed_fragments(typed.drop_last());
                    assert(typed.drop_last().push(HOME) == typed);
                    lemma_split_on_nonempty(typed.drop_last(), HOME);
                    crate::keypad::presses::lemma_keys_are_buttons(directional, typed);
                    lemma_expansion_pieces(directional, typed);
                    lemma_expansion_ends_pressed(directional, typed);
                }
                let ghost counted = sub_sequence_counts.entries@;
                match directional.get_sub_sequences_for_next_robot(sub_sequence_counts, cache) {
                    None => {
                        too_long = true;
                        sub_sequence_counts = SubSequenceCounts::new();
                    },
                    Some(next) => {
                        proof {
                            assert forall|weight: spec_fn(Seq<char>) -> nat| #[trigger]
                                weighed(next.entries@, weight) == sum_over(
                                    fragments(directional.expansion(typed)),
                                    weight,
                                ) by {
                                assert(weighed(counted, typed_alone(directional, weight)) == sum_over(
                                    fragments(typed),
                                    typed_alone(directional, weight),
                                ));
                                lemma_pieces_are_typed_alone(directional, fragments(typed), weight);
                            }
                            typed = directional.expansion(typed);
                        }
                        sub_sequence_counts = next;
                    },
                }
            }
            round += 1;
        }
        let sequence_length = if too_long {
            u64::MAX
        } else {
            proof {
                lemma_counts_presses(&sub_sequence_counts, typed);
            }
            match sub_sequence_counts.total_presses() {
                None => u64::MAX,
                Some(presses) => presses,
            }
        };
        assert(sequence_length == capped(directional.expanded(start, robots as nat).len()));
        if sequence_length < min_sequence_length {
            min_sequence_length = sequence_length;
        }
        n += 1;
    }
    proof {
        assert(all.take(n as int) == all);
    }
    min_sequence_length
}

/// The sum of the lengths of the pieces, each with its press, is at least
/// the number of pieces.
proof fn lemma_sum_at_least_count(pieces: Seq<Seq<char>>)
    ensures
        sum_over(pieces, press_weight()) >= pieces.len(),
    decreases pieces.len(),
{
    if pieces.len() > 0 {
        lemma_sum_at_least_count(pieces.drop_last());
    }
}

/// Every way to type a sequence that is not empty ends with a press.
pub proof fn lemma_all_sequences_end_pressed(keypad: &Keypad, sequence: Seq<char>)
    requires
        sequence.len() > 0,
    ensures
        forall|i: int|
            0 <= i < keypad.all_sequences(sequence).len() ==> ends_pressed(
                #[trigger] keypad.all_sequences(sequence)[i],
            ),
{
    let prefixes = keypad.all_sequences(sequence.drop_last());
    let options = keypad.candidates(arm_before(sequence), sequence.last());
    lemma_combined_end_pressed(prefixes, options);
}

proof fn lemma_combined_end_pressed(prefixes: Seq<Seq<char>>, options: Seq<Seq<char>>)
    requires
        forall|j: int| 0 <= j < options.len() ==> ends_pressed(#[trigger] options[j]),
    ensures
        forall|i: int|
            0 <= i < crate::keypad::presses::combined(prefixes, options).len() ==> ends_pressed(
                #[trigger] crate::keypad::presses::combined(prefixes, options)[i],
            ),
    decreases prefixes.len(),
{
    if prefixes.len() > 0 {
        lemma_combined_end_pressed(prefixes.drop_last(), options);
        let head = crate::keypad::presses::combined(prefixes.drop_last(), options);
        let tail = crate::keypad::presses::appended(prefixes.last(), options);
        assert forall|i: int|
            0 <= i < crate::keypad::presses::combined(prefixes, options).len() implies ends_pressed(
            #[trigger] crate::keypad::presses::combined(prefixes, options)[i],
        ) by {
            if i < head.len() {
                assert(crate::keypad::presses::combined(prefixes, options)[i] == head[i]);
            } else {
                let j = i - head.len();
                assert(crate::keypad::presses::combined(prefixes, options)[i] == tail[j]);
                assert(ends_pressed(options[j]));
                assert(tail[j].last() == options[j].last());
            }
        }
    }
}

/// The least number of presses for `numeric_code` with two directional
/// keypads between the human and the numeric keypad, both driven over the
/// preferred routes alone.
pub fn get_min_presses_for_numeric_code_with_two_directional_keypads(
    numeric: &Keypad,
    directional: &Keypad,
    numeric_code: &Vec<char>,
    cache: &mut SequenceMemo,
) -> (min_sequence_length: u64)
    requires
        numeric.wf(),
        numeric.has_button(HOME),
        numeric.has_buttons(numeric_code@),
        numeric_code.len() > 0,
        directional.wf(),
        directional.drives_itself(),
        old(cache).wf(directional),
    ensures
        min_sequence_length == capped(
            least_expanded(directional, numeric.all_sequences(numeric_code@), 2),
        ),
        final(cache).wf(directional),
        final(cache).grown_from(old(cache)),
{
    get_min_presses_for_numeric_code_with_directional_keypads(
        numeric,
        directional,
        numeric_code,
        2,
        cache,
    )
}

} // verus!
