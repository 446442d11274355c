//! What the arms do when keys are pressed: the chain of keypads as it
//! works, key by key. The counts of `presses` are lengths of strings of
//! keys that the human can press to have a sequence typed.

use crate::keypad::catalog::{catalogued, label_at, Keypad};
use crate::keypad::counting::lemma_all_sequences_end_pressed;
use crate::keypad::layout::{holds_button, is_move, route_end, step, walks, Cell, HOME};
use crate::keypad::presses::{
    arm_before, code_presses, lemma_all_sequences, lemma_candidates, lemma_combined_at,
    lemma_keys_are_buttons, lemma_least_is_reached,
};
use vstd::prelude::*;

verus! {

impl Keypad {
    /// What the arm on this keypad does when `keys` are pressed on the
    /// keypad that drives it, the arm standing on `at` before: the cell on
    /// which it stands afterwards and the buttons that it has pressed. A
    /// move takes the arm one cell further, a press of `HOME` makes it press
    /// the button under it. Nothing where the arm would leave the buttons,
    /// or where a key is neither a move nor `HOME`.
    pub open spec fn driven(&self, at: Cell, keys: Seq<char>) -> Option<(Cell, Seq<char>)>
        decreases keys.len(),
    {
        if keys.len() == 0 {
            Some((at, Seq::empty()))
        } else {
            match self.driven(at, keys.drop_last()) {
                None => None,
                Some((cell, pressed)) => {
                    let key = keys.last();
                    if key == HOME {
                        Some((cell, pressed.push(label_at(self.grid_view(), cell))))
                    } else if is_move(key) && holds_button(self.grid_view(), step(cell, key)) {
                        Some((step(cell, key), pressed))
                    } else {
                        None
                    }
                },
            }
        }
    }

    /// Whether `keys`, pressed by the human, have `sequence` pressed
    /// through `depth` arms on keypads like this one, each arm starting on
    /// `HOME` and standing there again at the end. With no arm the human
    /// presses the sequence.
    pub open spec fn types_home(&self, keys: Seq<char>, sequence: Seq<char>, depth: nat) -> bool
        decreases depth,
    {
        if depth == 0 {
            keys == sequence
        } else {
            exists|mid: Seq<char>|
                self.types_home(keys, mid, (depth - 1) as nat) && #[trigger] self.driven(
                    self.cell_of(HOME),
                    mid,
                ) == Some((self.cell_of(HOME), sequence))
        }
    }

    /// The cell of the last button of `sequence`, on which the arm stands
    /// when it has typed the sequence; that of `HOME` for no button.
    pub open spec fn cell_after(&self, sequence: Seq<char>) -> Cell {
        if sequence.len() == 0 {
            self.cell_of(HOME)
        } else {
            self.cell_of(sequence.last())
        }
    }
}

/// Whether `keys`, pressed by the human, have `code` typed on `numeric`
/// through `robots` keypads like `directional`, every arm starting on
/// `HOME`.
pub open spec fn types_code(
    numeric: &Keypad,
    directional: &Keypad,
    keys: Seq<char>,
    code: Seq<char>,
    robots: nat,
) -> bool {
    exists|mid: Seq<char>|
        directional.types_home(keys, mid, robots) && #[trigger] numeric.driven(
            numeric.cell_of(HOME),
            mid,
        ) == Some((numeric.cell_after(code), code))
}

/// Keys pressed after keys drive the arm on from where the first left it.
pub proof fn lemma_driven_on(keypad: &Keypad, at: Cell, first: Seq<char>, second: Seq<char>)
    ensures
        keypad.driven(at, first + second) == match keypad.driven(at, first) {
            None => None,
            Some((cell, pressed)) => match keypad.driven(cell, second) {
                None => None,
                Some((end, more)) => Some((end, pressed + more)),
            },
        },
    decreases second.len(),
{
    if second.len() == 0 {
        assert(first + second == first);
        match keypad.driven(at, first) {
            None => {},
            Some((cell, pressed)) => {
                assert(pressed + Seq::<char>::empty() == pressed);
            },
        }
    } else {
        lemma_driven_on(keypad, at, first, second.drop_last());
        assert((first + second).drop_last() == first + second.drop_last());
        assert((first + second).last() == second.last());
        match keypad.driven(at, first) {
            None => {},
            Some((cell, pressed)) => match keypad.driven(cell, second.drop_last()) {
                None => {},
                Some((end, more)) => {
                    let label = label_at(keypad.grid_view(), end);
                    assert((pressed + more).push(label) == pressed + more.push(label));
                },
            },
        }
    }
}

/// The moves of a route that can be walked take the arm to its end, and
/// nothing is pressed.
pub proof fn lemma_driven_along(keypad: &Keypad, from: Cell, route: Seq<char>)
    requires
        walks(keypad.grid_view(), from, route),
    ensures
        keypad.driven(from, route) == Some((route_end(from, route), Seq::<char>::empty())),
    decreases route.len(),
{
    if route.len() > 0 {
        lemma_driven_along(keypad, from, route.drop_last());
    }
}

/// The cell of a button holds its label.
proof fn lemma_label_of_cell(keypad: &Keypad, label: char)
    requires
        keypad.wf(),
        keypad.has_button(label),
    ensures
        holds_button(keypad.grid_view(), keypad.cell_of(label)),
        label_at(keypad.grid_view(), keypad.cell_of(label)) == label,
{
    let i = keypad.number_of(label);
    assert(keypad.spots()[i].cell() == keypad.cell_of(label));
}

/// A candidate for a step takes the arm from the one button to the other
/// and has it press there.
pub proof fn lemma_candidate_drives(keypad: &Keypad, from: char, to: char, i: int)
    requires
        keypad.wf(),
        keypad.has_button(from),
        keypad.has_button(to),
        0 <= i < keypad.candidates(from, to).len(),
    ensures
        keypad.driven(keypad.cell_of(from), keypad.candidates(from, to)[i]) == Some(
            (keypad.cell_of(to), seq![to]),
        ),
{
    let candidate = keypad.candidates(from, to)[i];
    let none = Seq::<char>::empty();
    lemma_label_of_cell(keypad, to);
    assert(none.push(to) == seq![to]);
    if from == to {
        assert(candidate.drop_last() == none);
        assert(keypad.driven(keypad.cell_of(from), none) == Some((keypad.cell_of(from), none)));
    } else {
        let route = keypad.routes(from, to)[i];
        assert(keypad.routes(from, to).contains(route));
        assert(catalogued(
            keypad.grid_view(),
            keypad.buttons@,
            keypad.number_of(from),
            keypad.number_of(to),
        ));
        lemma_driven_along(keypad, keypad.cell_of(from), route);
        assert(candidate.drop_last() == route);
    }
}

/// No key has nothing pressed through any number of arms.
proof fn lemma_nothing_typed(keypad: &Keypad, depth: nat)
    ensures
        keypad.types_home(Seq::empty(), Seq::empty(), depth),
    decreases depth,
{
    if depth > 0 {
        lemma_nothing_typed(keypad, (depth - 1) as nat);
        let none = Seq::<char>::empty();
        assert(keypad.types_home(none, none, (depth - 1) as nat) && keypad.driven(
            keypad.cell_of(HOME),
            none,
        ) == Some((keypad.cell_of(HOME), none)));
    }
}

/// Keys pressed after keys have pressed what the first have pressed and
/// then what the second have.
pub proof fn lemma_types_home_both(
    keypad: &Keypad,
    first: Seq<char>,
    pressed: Seq<char>,
    second: Seq<char>,
    more: Seq<char>,
    depth: nat,
)
    requires
        keypad.types_home(first, pressed, depth),
        keypad.types_home(second, more, depth),
    ensures
        keypad.types_home(first + second, pressed + more, depth),
    decreases depth,
{
    if depth > 0 {
        let nearer = (depth - 1) as nat;
        let home = keypad.cell_of(HOME);
        let one = choose|mid: Seq<char>|
            keypad.types_home(first, mid, nearer) && #[trigger] keypad.driven(home, mid) == Some(
                (home, pressed),
            );
        let other = choose|mid: Seq<char>|
            keypad.types_home(second, mid, nearer) && #[trigger] keypad.driven(home, mid) == Some(
                (home, more),
            );
        lemma_types_home_both(keypad, first, one, second, other, nearer);
        lemma_driven_on(keypad, home, one, other);
        assert(keypad.types_home(first + second, one + other, nearer) && keypad.driven(
            home,
            one + other,
        ) == Some((home, pressed + more)));
    }
}

/// A string of keys as long as the cost of `sequence` at `depth` that has
/// the sequence pressed through `depth` arms: the cost is the length of
/// something that the human can press.
pub proof fn lemma_presses_are_pressed(keypad: &Keypad, sequence: Seq<char>, depth: nat) -> (keys: Seq<
    char,
>)
    requires
        keypad.wf(),
        depth >= 1 ==> keypad.has_button(HOME) && keypad.has_buttons(sequence),
        depth >= 1 ==> sequence.len() == 0 || sequence.last() == HOME,
        depth >= 2 ==> keypad.drives_itself(),
    ensures
        keys.len() == keypad.presses(sequence, depth),
        keypad.types_home(keys, sequence, depth),
    decreases depth, 1nat, 0nat,
{
    if depth == 0 {
        sequence
    } else {
        let found = lemma_steps_are_pressed(keypad, sequence, depth, sequence.len());
        assert(sequence.take(sequence.len() as int) == sequence);
        if sequence.len() > 0 {
            assert(sequence[sequence.len() - 1] == HOME);
        }
        assert(keypad.types_home(found.0, found.1, (depth - 1) as nat) && keypad.driven(
            keypad.cell_of(HOME),
            found.1,
        ) == Some((keypad.cell_of(HOME), sequence)));
        found.0
    }
}

/// The keys for the first `n` steps of a sequence, and what they have the
/// arm above press.
proof fn lemma_steps_are_pressed(keypad: &Keypad, sequence: Seq<char>, depth: nat, n: nat) -> (found: (
    Seq<char>,
    Seq<char>,
))
    requires
        keypad.wf(),
        keypad.has_button(HOME),
        keypad.has_buttons(sequence),
        depth >= 1,
        depth >= 2 ==> keypad.drives_itself(),
        n <= sequence.len(),
    ensures
        found.0.len() == keypad.typed(sequence.take(n as int), depth),
        keypad.types_home(found.0, found.1, (depth - 1) as nat),
        keypad.driven(keypad.cell_of(HOME), found.1) == Some(
            (keypad.cell_after(sequence.take(n as int)), sequence.take(n as int)),
        ),
    decreases depth, 0nat, n,
{
    let nearer = (depth - 1) as nat;
    let home = keypad.cell_of(HOME);
    if n == 0 {
        lemma_nothing_typed(keypad, nearer);
        assert(sequence.take(0) == Seq::<char>::empty());
        (Seq::empty(), Seq::empty())
    } else {
        let before = lemma_steps_are_pressed(keypad, sequence, depth, (n - 1) as nat);
        let done = sequence.take(n - 1);
        let longer = sequence.take(n as int);
        assert(longer.drop_last() == done);
        let from = arm_before(longer);
        let to = longer.last();
        assert(to == sequence[n - 1]);
        assert(keypad.has_button(sequence[n - 1]));
        if n > 1 {
            assert(from == sequence[n - 2]);
            assert(keypad.has_button(sequence[n - 2]));
            assert(done.last() == from);
        }
        assert(keypad.cell_after(done) == keypad.cell_of(from));
        let options = keypad.candidates(from, to);
        lemma_candidates(keypad, from, to);
        let i = lemma_least_is_reached(keypad, options, nearer);
        let best = options[i];
        assert(best.len() > 0 && best.last() == HOME) by {
            if from != to {
                assert(best == keypad.routes(from, to)[i].push(HOME));
            }
        }
        if nearer >= 1 {
            lemma_keys_are_buttons(keypad, best);
        }
        let keys = lemma_presses_are_pressed(keypad, best, nearer);
        lemma_types_home_both(keypad, before.0, before.1, keys, best, nearer);
        lemma_candidate_drives(keypad, from, to, i);
        lemma_driven_on(keypad, home, before.1, best);
        assert(done + seq![to] == longer);
        assert(keypad.step_presses(from, to, depth) == keypad.least_presses(options, nearer));
        assert(keypad.typed(longer, depth) == keypad.typed(done, depth) + keypad.step_presses(
            from,
            to,
            depth,
        ));
        (before.0 + keys, before.1 + best)
    }
}

/// Every sequence that types a sequence of buttons has the arm on the
/// keypad press those buttons, the arm starting on `HOME`.
pub proof fn lemma_sequences_drive(keypad: &Keypad, sequence: Seq<char>, i: int)
    requires
        keypad.wf(),
        keypad.has_button(HOME),
        keypad.has_buttons(sequence),
        0 <= i < keypad.all_sequences(sequence).len(),
    ensures
        keypad.driven(keypad.cell_of(HOME), keypad.all_sequences(sequence)[i]) == Some(
            (keypad.cell_after(sequence), sequence),
        ),
    decreases sequence.len(),
{
    let home = keypad.cell_of(HOME);
    if sequence.len() == 0 {
        assert(keypad.all_sequences(sequence)[i] == Seq::<char>::empty());
    } else {
        let head = sequence.drop_last();
        let from = arm_before(sequence);
        let to = sequence.last();
        assert(keypad.has_buttons(head)) by {
            assert forall|t: int| 0 <= t < head.len() implies keypad.has_button(#[trigger] head[t]) by {
                assert(head[t] == sequence[t]);
            }
        }
        if sequence.len() > 1 {
            assert(keypad.has_button(sequence[sequence.len() - 2]));
            assert(head.last() == from);
        }
        assert(keypad.has_button(sequence[sequence.len() - 1]));
        assert(keypad.cell_after(head) == keypad.cell_of(from));
        let prefixes = keypad.all_sequences(head);
        let options = keypad.candidates(from, to);
        let at = lemma_combined_at(prefixes, options, i);
        lemma_sequences_drive(keypad, head, at.0);
        lemma_candidate_drives(keypad, from, to, at.1);
        lemma_driven_on(keypad, home, prefixes[at.0], options[at.1]);
        assert(head + seq![to] == sequence);
    }
}

/// A string of keys as long as the cost of `code` that has the code typed
/// on `numeric` through `robots` keypads like `directional`: the cost is
/// the length of something that the human can press, so the fewest keys
/// that have the code typed are no more.
pub proof fn lemma_code_presses_are_pressed(
    numeric: &Keypad,
    directional: &Keypad,
    code: Seq<char>,
    robots: nat,
) -> (keys: Seq<char>)
    requires
        numeric.wf(),
        numeric.has_button(HOME),
        numeric.has_buttons(code),
        directional.wf(),
        robots >= 1 ==> directional.drives_itself(),
    ensures
        keys.len() == code_presses(numeric, directional, code, robots),
        types_code(numeric, directional, keys, code, robots),
{
    let all = numeric.all_sequences(code);
    lemma_all_sequences(numeric, code);
    let i = lemma_least_is_reached(directional, all, robots);
    let typed = all[i];
    if code.len() > 0 {
        lemma_all_sequences_end_pressed(numeric, code);
    } else {
        assert(typed == Seq::<char>::empty());
    }
    if robots >= 1 {
        lemma_keys_are_buttons(directional, typed);
    }
    let keys = lemma_presses_are_pressed(directional, typed, robots);
    lemma_sequences_drive(numeric, code, i);
    assert(directional.types_home(keys, typed, robots) && numeric.driven(
        numeric.cell_of(HOME),
        typed,
    ) == Some((numeric.cell_after(code), code)));
    keys
}

} // verus!
