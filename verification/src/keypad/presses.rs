//! The number of presses that a sequence of buttons costs the human who
//! types it through a chain of directional keypads.
//!
//! Every press brings the arm back to the button that it pressed, so the
//! cost of a sequence is the sum of the costs of its steps, and the cost of
//! a step depends on its two buttons and on the depth alone.

use crate::keypad::catalog::{
    all_differ, all_keys, catalogued, is_key, label_at, lemma_catalog_routes_are_equally_long,
    Keypad,
};
use crate::keypad::layout::{holds_button, is_move, is_shortest, lemma_walk_is_moves, HOME};
use crate::keypad::routes::extended;
use crate::text::{chained, copy_range, same_chars, views};
use vstd::prelude::*;

verus! {

/// A count as a 64-bit number holds it: counts that do not fit are held as
/// the largest number.
pub open spec fn capped(n: nat) -> u64 {
    if n >= u64::MAX {
        u64::MAX
    } else {
        n as u64
    }
}

/// The button on which the arm stands before it types the last button of
/// `sequence`: the button before the last, or `HOME` at the start.
pub open spec fn arm_before(sequence: Seq<char>) -> char {
    if sequence.len() <= 1 {
        HOME
    } else {
        sequence[sequence.len() - 2]
    }
}

impl Keypad {
    /// Whether the keypad can be typed on through a keypad like itself: it
    /// has a button for each move and the button `HOME`.
    pub open spec fn drives_itself(&self) -> bool {
        &&& self.has_button(HOME)
        &&& self.has_button('<')
        &&& self.has_button('>')
        &&& self.has_button('^')
        &&& self.has_button('v')
    }

    /// The sequences that get the arm from `from` to `to` and press there:
    /// each shortest route followed by a press; a single press where the arm
    /// is there already.
    pub open spec fn candidates(&self, from: char, to: char) -> Seq<Seq<char>> {
        if from == to {
            seq![seq![HOME]]
        } else {
            Seq::new(self.routes(from, to).len(), |i: int| self.routes(from, to)[i].push(HOME))
        }
    }

    /// The least number of presses that the human makes to have `sequence`
    /// typed on this keypad through `depth` keypads like it, the arm
    /// starting on `HOME`. With no keypad between, every button is one press.
    pub open spec fn presses(&self, sequence: Seq<char>, depth: nat) -> nat
        decreases depth, 2nat, sequence.len(),
    {
        if depth == 0 {
            sequence.len()
        } else {
            self.typed(sequence, depth)
        }
    }

    /// The sum over the steps of `sequence` of what each costs.
    pub open spec fn typed(&self, sequence: Seq<char>, depth: nat) -> nat
        decreases depth, 1nat, sequence.len(),
    {
        if depth == 0 || sequence.len() == 0 {
            0
        } else {
            self.typed(sequence.drop_last(), depth) + self.step_presses(
                arm_before(sequence),
                sequence.last(),
                depth,
            )
        }
    }

    /// The cost of one step: the least cost, one keypad nearer to the
    /// human, of a sequence that makes the step.
    pub open spec fn step_presses(&self, from: char, to: char, depth: nat) -> nat
        decreases depth, 0nat, 0nat,
    {
        if depth == 0 {
            0
        } else {
            self.least_presses(self.candidates(from, to), (depth - 1) as nat)
        }
    }

    /// The least cost among `options`.
    pub open spec fn least_presses(&self, options: Seq<Seq<char>>, depth: nat) -> nat
        decreases depth, 3nat, options.len(),
    {
        if options.len() == 0 {
            0
        } else if options.len() == 1 {
            self.presses(options[0], depth)
        } else {
            let rest = self.least_presses(options.drop_last(), depth);
            let last = self.presses(options.last(), depth);
            if last < rest {
                last
            } else {
                rest
            }
        }
    }
}

/// Between two buttons of a keypad there is at least one candidate, and
/// every candidate is made of moves and a press.
pub proof fn lemma_candidates(keypad: &Keypad, from: char, to: char)
    requires
        keypad.wf(),
        keypad.has_button(from),
        keypad.has_button(to),
    ensures
        keypad.candidates(from, to).len() > 0,
        forall|i: int|
            0 <= i < keypad.candidates(from, to).len() ==> all_keys(
                #[trigger] keypad.candidates(from, to)[i],
            ),
{
    let options = keypad.candidates(from, to);
    if from != to {
        let i = keypad.number_of(from);
        let j = keypad.number_of(to);
        let routes = keypad.routes(from, to);
        assert(catalogued(keypad.grid_view(), keypad.buttons@, i, j));
        assert forall|n: int| 0 <= n < options.len() implies all_keys(#[trigger] options[n]) by {
            assert(routes.contains(routes[n]));
            lemma_walk_is_moves(keypad.grid_view(), keypad.buttons[i].cell(), routes[n]);
            assert forall|t: int| 0 <= t < options[n].len() implies is_key(
                #[trigger] options[n][t],
            ) by {
                if t < routes[n].len() {
                    assert(options[n][t] == routes[n][t]);
                }
            }
        }
    } else {
        assert(options[0][0] == HOME);
    }
}

/// A keypad that drives itself has a button for every move and for `HOME`.
pub proof fn lemma_keys_are_buttons(keypad: &Keypad, keys: Seq<char>)
    requires
        keypad.drives_itself(),
        all_keys(keys),
    ensures
        keypad.has_buttons(keys),
{
    assert forall|i: int| 0 <= i < keys.len() implies keypad.has_button(#[trigger] keys[i]) by {
        assert(is_key(keys[i]));
    }
}

/// One remembered result: what `sequence` costs at `depth`.
pub struct CacheEntry {
    pub sequence: Vec<char>,
    pub depth: u8,
    pub presses: u64,
}

/// Whether `entry` is the result for `sequence` at `depth`.
pub open spec fn is_entry_for(entry: CacheEntry, sequence: Seq<char>, depth: u8) -> bool {
    entry.sequence@ == sequence && entry.depth == depth
}

/// The results that an evaluation has found so far, each pair of a sequence
/// and a depth once.
pub struct PressCache {
    pub entries: Vec<CacheEntry>,
}

impl PressCache {
    /// Whether the cache holds a result for `sequence` at `depth`.
    pub open spec fn holds(&self, sequence: Seq<char>, depth: u8) -> bool {
        exists|i: int|
            0 <= i < self.entries.len() && is_entry_for(#[trigger] self.entries[i], sequence, depth)
    }

    /// The invariant of a cache that serves `keypad`: every result is the
    /// capped cost of its sequence at its depth, and no pair of a sequence
    /// and a depth has two entries.
    pub open spec fn wf(&self, keypad: &Keypad) -> bool {
        &&& forall|i: int|
            0 <= i < self.entries.len() ==> (#[trigger] self.entries[i]).presses == capped(
                keypad.presses(self.entries[i].sequence@, self.entries[i].depth as nat),
            )
        &&& forall|i: int, j: int|
            0 <= i < j < self.entries.len() ==> !is_entry_for(
                #[trigger] self.entries[j],
                (#[trigger] self.entries[i]).sequence@,
                self.entries[i].depth,
            )
    }

    /// Whether this cache is `before` with entries added at its end, none
    /// of them for a depth above `depth`.
    pub open spec fn grown_from(&self, before: &PressCache, depth: u8) -> bool {
        &&& before.entries.len() <= self.entries.len()
        &&& forall|i: int|
            0 <= i < before.entries.len() ==> #[trigger] self.entries[i] == before.entries[i]
        &&& forall|i: int|
            before.entries.len() <= i < self.entries.len() ==> (#[trigger] self.entries[i]).depth
                <= depth
    }

    /// The pairs of a sequence and a depth for which the cache holds a
    /// result, in the order of its entries.
    pub open spec fn keys(&self) -> Seq<(Seq<char>, u8)> {
        Seq::new(
            self.entries.len() as nat,
            |i: int| (self.entries[i].sequence@, self.entries[i].depth),
        )
    }

    /// A cache without entries.
    pub fn new() -> (cache: PressCache)
        ensures
            cache.entries.len() == 0,
            forall|keypad: &Keypad| cache.wf(keypad),
    {
        PressCache { entries: Vec::new() }
    }

    /// The number of entries.
    pub fn len(&self) -> (count: usize)
        ensures
            count == self.entries.len(),
    {
        self.entries.len()
    }

    /// The result that the cache holds for `sequence` at `depth`.
    pub fn get(&self, sequence: &Vec<char>, depth: u8) -> (found: Option<u64>)
        ensures
            found is Some <==> self.holds(sequence@, depth),
            found matches Some(presses) ==> exists|i: int|
                0 <= i < self.entries.len() && is_entry_for(
                    #[trigger] self.entries[i],
                    sequence@,
                    depth,
                ) && self.entries[i].presses == presses,
    {
        let mut i: usize = 0;
        while i < self.entries.len()
            invariant
                i <= self.entries.len(),
                forall|j: int| 0 <= j < i ==> !is_entry_for(#[trigger] self.entries[j], sequence@, depth),
            decreases self.entries.len() - i,
        {
            if self.entries[i].depth == depth && same_chars(&self.entries[i].sequence, sequence) {
                assert(is_entry_for(self.entries[i as int], sequence@, depth));
                return Some(self.entries[i].presses);
            }
            i += 1;
        }
        None
    }

    /// Adds the result for a pair that the cache does not hold yet.
    fn insert(&mut self, sequence: Vec<char>, depth: u8, presses: u64)
        requires
            !old(self).holds(sequence@, depth),
        ensures
            final(self).entries@ == old(self).entries@.push(CacheEntry { sequence, depth, presses }),
    {
        self.entries.push(CacheEntry { sequence, depth, presses });
    }
}

/// A cache holds a result for a pair exactly when the pair is among its
/// keys.
pub proof fn lemma_holds_key(cache: &PressCache, sequence: Seq<char>, depth: u8)
    ensures
        cache.holds(sequence, depth) <==> cache.keys().contains((sequence, depth)),
{
    if cache.holds(sequence, depth) {
        let i = choose|i: int|
            0 <= i < cache.entries.len() && is_entry_for(#[trigger] cache.entries[i], sequence, depth);
        assert(cache.keys()[i] == (sequence, depth));
    }
    if cache.keys().contains((sequence, depth)) {
        let i = choose|i: int| 0 <= i < cache.keys().len() && cache.keys()[i] == (sequence, depth);
        assert(is_entry_for(cache.entries[i], sequence, depth));
    }
}

impl Keypad {
    /// The keys of a cache after `sequence` has been evaluated at `depth`,
    /// where `held` are its keys before. With no keypad between, and for a
    /// pair that is held, nothing is added. Else the steps of the sequence
    /// are evaluated in their order, and the pair itself is added last.
    pub open spec fn remembered(&self, held: Seq<(Seq<char>, u8)>, sequence: Seq<char>, depth: u8) -> Seq<
        (Seq<char>, u8),
    >
        decreases depth, 1nat, 0nat,
    {
        if depth == 0 || held.contains((sequence, depth)) {
            held
        } else {
            self.remembered_steps(held, sequence, depth, sequence.len()).push((sequence, depth))
        }
    }

    /// The keys of a cache after the first `n` steps of `sequence` have been
    /// evaluated at `depth`: for each step its candidates, one keypad nearer
    /// to the human.
    pub open spec fn remembered_steps(
        &self,
        held: Seq<(Seq<char>, u8)>,
        sequence: Seq<char>,
        depth: u8,
        n: nat,
    ) -> Seq<(Seq<char>, u8)>
        decreases depth, 0nat, n,
    {
        if depth == 0 || n == 0 || n > sequence.len() {
            held
        } else {
            let options = self.candidates(arm_before(sequence.take(n as int)), sequence[n - 1]);
            self.remembered_options(
                self.remembered_steps(held, sequence, depth, (n - 1) as nat),
                options,
                (depth - 1) as u8,
                options.len(),
            )
        }
    }

    /// The keys of a cache after the first `n` of `options` have been
    /// evaluated at `depth`, in their order.
    pub open spec fn remembered_options(
        &self,
        held: Seq<(Seq<char>, u8)>,
        options: Seq<Seq<char>>,
        depth: u8,
        n: nat,
    ) -> Seq<(Seq<char>, u8)>
        decreases depth, 2nat, n,
    {
        if n == 0 || n > options.len() {
            held
        } else {
            self.remembered(
                self.remembered_options(held, options, depth, (n - 1) as nat),
                options[n - 1],
                depth,
            )
        }
    }
}

/// Evaluating options with no keypad between adds no key.
pub proof fn lemma_nothing_remembered_without_keypads(
    keypad: &Keypad,
    held: Seq<(Seq<char>, u8)>,
    options: Seq<Seq<char>>,
    n: nat,
)
    ensures
        keypad.remembered_options(held, options, 0, n) == held,
    decreases n,
{
    if n > 0 && n <= options.len() {
        lemma_nothing_remembered_without_keypads(keypad, held, options, (n - 1) as nat);
        assert(keypad.remembered(held, options[n - 1], 0) == held);
    }
}

/// The first evaluation of a sequence through one keypad adds one key, that
/// of the sequence itself.
pub proof fn lemma_one_key_through_one_keypad(
    keypad: &Keypad,
    held: Seq<(Seq<char>, u8)>,
    sequence: Seq<char>,
)
    requires
        !held.contains((sequence, 1u8)),
    ensures
        keypad.remembered(held, sequence, 1) == held.push((sequence, 1u8)),
{
    lemma_no_key_for_steps_through_one_keypad(keypad, held, sequence, sequence.len());
}

proof fn lemma_no_key_for_steps_through_one_keypad(
    keypad: &Keypad,
    held: Seq<(Seq<char>, u8)>,
    sequence: Seq<char>,
    n: nat,
)
    ensures
        keypad.remembered_steps(held, sequence, 1, n) == held,
    decreases n,
{
    if n > 0 && n <= sequence.len() {
        lemma_no_key_for_steps_through_one_keypad(keypad, held, sequence, (n - 1) as nat);
        let options = keypad.candidates(arm_before(sequence.take(n as int)), sequence[n - 1]);
        lemma_nothing_remembered_without_keypads(keypad, held, options, options.len());
    }
}

/// The sum of two capped counts is the capped sum.
fn add_capped(a: u64, b: u64) -> (sum: u64)
    ensures
        sum == if a + b >= u64::MAX {
            u64::MAX
        } else {
            (a + b) as u64
        },
{
    if a > u64::MAX - b {
        u64::MAX
    } else {
        a + b
    }
}

impl Keypad {
    /// The sequences that get the arm from one button to another and press
    /// there, as `candidates` lists them.
    pub fn get_button_sequences_between_buttons(&self, from_button: char, to_button: char) -> (result:
        Vec<Vec<char>>)
        requires
            self.wf(),
            self.has_button(from_button),
            self.has_button(to_button),
        ensures
            views(result@) == self.candidates(from_button, to_button),
    {
        let mut result: Vec<Vec<char>> = Vec::new();
        if from_button == to_button {
            let mut press: Vec<char> = Vec::new();
            press.push(HOME);
            result.push(press);
            assert(views(result@) == seq![seq![HOME]]);
            return result;
        }
        let i = self.find_button(from_button).unwrap();
        let j = self.find_button(to_button).unwrap();
        let routes = &self.buttons[i].sequences_to_button[j];
        assert(views(routes@) == self.routes(from_button, to_button));
        let mut n: usize = 0;
        while n < routes.len()
            invariant
                n <= routes.len(),
                from_button != to_button,
                views(routes@) == self.routes(from_button, to_button),
                views(result@) == self.candidates(from_button, to_button).take(n as int),
            decreases routes.len() - n,
        {
            let ghost before = views(result@);
            let sequence = extended(&routes[n], HOME);
            assert(views(routes@)[n as int] == routes[n as int]@);
            result.push(sequence);
            assert(views(result@) == before.push(sequence@));
            assert(self.candidates(from_button, to_button).take(n + 1) == self.candidates(
                from_button,
                to_button,
            ).take(n as int).push(self.candidates(from_button, to_button)[n as int]));
            n += 1;
        }
        assert(self.candidates(from_button, to_button).take(n as int) == self.candidates(
            from_button,
            to_button,
        ));
        result
    }

    /// The least number of presses that the human makes to have
    /// `button_sequence` typed on this keypad through `depth` keypads like it,
    /// capped at the largest 64-bit number. Results are remembered in `cache`
    /// under the sequence and the depth, and asked for there first: a pair
    /// that the cache holds is answered from it and leaves it unchanged.
    /// With no keypad between, the sequence may hold any symbols; through
    /// one keypad, its symbols are buttons of this keypad; through more, the
    /// keypad also has the buttons that drive it.
    pub fn find_min_button_presses(
        &self,
        button_sequence: &Vec<char>,
        depth: u8,
        cache: &mut PressCache,
    ) -> (presses: u64)
        requires
            self.wf(),
            depth >= 1 ==> self.has_button(HOME) && self.has_buttons(button_sequence@),
            depth >= 2 ==> self.drives_itself(),
            old(cache).wf(self),
        ensures
            presses == capped(self.presses(button_sequence@, depth as nat)),
            final(cache).wf(self),
            final(cache).keys() == self.remembered(old(cache).keys(), button_sequence@, depth),
            final(cache).grown_from(old(cache), depth),
            depth > 0 ==> final(cache).holds(button_sequence@, depth),
            depth == 0 || old(cache).holds(button_sequence@, depth) ==> final(cache).entries@ == old(
                cache,
            ).entries@,
        decreases depth, 1nat,
    {
        if depth == 0 {
            return button_sequence.len() as u64;
        }
        proof {
            lemma_holds_key(cache, button_sequence@, depth);
        }
        if let Some(result) = cache.get(button_sequence, depth) {
            return result;
        }
        let ghost start = *cache;
        let mut total_sequence_length: u64 = 0;
        let mut from_button = HOME;
        let mut i: usize = 0;
        while i < button_sequence.len()
            invariant
                i <= button_sequence.len(),
                depth > 0,
                self.wf(),
                self.has_button(HOME),
                depth >= 2 ==> self.drives_itself(),
                self.has_buttons(button_sequence@),
                cache.wf(self),
                cache.grown_from(&start, (depth - 1) as u8),
                cache.keys() == self.remembered_steps(
                    start.keys(),
                    button_sequence@,
                    depth,
                    i as nat,
                ),
                !start.holds(button_sequence@, depth),
                self.has_button(from_button),
                from_button == if i == 0 {
                    HOME
                } else {
                    button_sequence[i - 1]
                },
                total_sequence_length == capped(
                    self.typed(button_sequence@.take(i as int), depth as nat),
                ),
            decreases button_sequence.len() - i,
        {
            let to_button = button_sequence[i];
            let ghost done = button_sequence@.take(i as int);
            let ghost longer = button_sequence@.take(i + 1);
            proof {
                assert(longer.drop_last() == done);
                assert(longer.last() == to_button);
                assert(self.has_button(button_sequence@[i as int]));
                lemma_candidates(self, from_button, to_button);
            }
            let options = self.get_button_sequences_between_buttons(from_button, to_button);
            proof {
                assert(arm_before(longer) == from_button);
                assert forall|n: int| 0 <= n < options.len() implies all_keys(
                    (#[trigger] options[n])@,
                ) by {
                    assert(views(options@)[n] == options[n]@);
                }
            }
            let min_sub_sequence_length = self.least_button_presses(&options, depth - 1, cache);
            proof {
                assert(button_sequence@.take(i + 1) == longer);
                assert(cache.keys() == self.remembered_steps(
                    start.keys(),
                    button_sequence@,
                    depth,
                    (i + 1) as nat,
                ));
                assert(min_sub_sequence_length == capped(
                    self.step_presses(from_button, to_button, depth as nat),
                ));
                assert(self.typed(longer, depth as nat) == self.typed(done, depth as nat)
                    + self.step_presses(from_button, to_button, depth as nat));
            }
            total_sequence_length = add_capped(total_sequence_length, min_sub_sequence_length);
            from_button = to_button;
            i += 1;
        }
        proof {
            assert(button_sequence@.take(i as int) == button_sequence@);
            if cache.holds(button_sequence@, depth) {
                let n = choose|n: int|
                    0 <= n < cache.entries.len() && is_entry_for(
                        #[trigger] cache.entries[n],
                        button_sequence@,
                        depth,
                    );
                if n < start.entries.len() {
                    assert(is_entry_for(start.entries[n], button_sequence@, depth));
                }
            }
        }
        let key = copy_range(button_sequence, 0, button_sequence.len());
        assert(key@ == button_sequence@);
        let ghost before = *cache;
        cache.insert(key, depth, total_sequence_length);
        proof {
            let last = cache.entries.len() - 1;
            assert(cache.keys() == before.keys().push((button_sequence@, depth)));
            assert(is_entry_for(cache.entries[last], button_sequence@, depth));
            assert forall|a: int, b: int| 0 <= a < b < cache.entries.len() implies !is_entry_for(
                #[trigger] cache.entries[b],
                (#[trigger] cache.entries[a]).sequence@,
                cache.entries[a].depth,
            ) by {
                if b == last {
                    assert(cache.entries[a] == before.entries[a]);
                    if is_entry_for(cache.entries[b], cache.entries[a].sequence@, cache.entries[a].depth) {
                        assert(is_entry_for(before.entries[a], button_sequence@, depth));
                    }
                } else {
                    assert(cache.entries[a] == before.entries[a]);
                    assert(cache.entries[b] == before.entries[b]);
                }
            }
        }
        total_sequence_length
    }

    /// The least of the costs of `options` at `depth`, capped; the largest
    /// 64-bit number where there is no option. With a keypad between, the
    /// options are made of the buttons that drive this keypad.
    pub fn least_button_presses(&self, options: &Vec<Vec<char>>, depth: u8, cache: &mut PressCache) -> (least:
        u64)
        requires
            self.wf(),
            depth >= 1 ==> self.drives_itself(),
            depth >= 1 ==> forall|n: int| 0 <= n < options.len() ==> all_keys((#[trigger] options[n])@),
            old(cache).wf(self),
        ensures
            options.len() > 0 ==> least == capped(self.least_presses(views(options@), depth as nat)),
            options.len() == 0 ==> least == u64::MAX,
            final(cache).wf(self),
            final(cache).keys() == self.remembered_options(
                old(cache).keys(),
                views(options@),
                depth,
                options.len() as nat,
            ),
            final(cache).grown_from(old(cache), depth),
        decreases depth, 2nat,
    {
        let ghost start = *cache;
        let ghost all = views(options@);
        let mut least: u64 = u64::MAX;
        let mut n: usize = 0;
        while n < options.len()
            invariant
                n <= options.len(),
                self.wf(),
                depth >= 1 ==> self.drives_itself(),
                all == views(options@),
                depth >= 1 ==> forall|n: int|
                    0 <= n < options.len() ==> all_keys((#[trigger] options[n])@),
                cache.wf(self),
                cache.grown_from(&start, depth),
                cache.keys() == self.remembered_options(start.keys(), all, depth, n as nat),
                n == 0 ==> least == u64::MAX,
                n > 0 ==> least == capped(self.least_presses(all.take(n as int), depth as nat)),
            decreases options.len() - n,
        {
            proof {
                if depth >= 1 {
                    lemma_keys_are_buttons(self, options[n as int]@);
                }
                assert(all[n as int] == options[n as int]@);
                assert(all.take(n + 1).drop_last() == all.take(n as int));
                assert(all.take(n + 1).last() == options[n as int]@);
                if n == 0 {
                    assert(all.take(1)[0] == options[0]@);
                }
            }
            let new_sub_sequence_length = self.find_min_button_presses(&options[n], depth, cache);
            if new_sub_sequence_length < least {
                least = new_sub_sequence_length;
            }
            n += 1;
        }
        proof {
            assert(all.take(n as int) == all);
        }
        least
    }
}

/// With no keypad between the human and the keypad, a sequence costs one
/// press for each of its buttons.
pub proof fn lemma_presses_without_keypads(keypad: &Keypad, sequence: Seq<char>)
    ensures
        keypad.presses(sequence, 0) == sequence.len(),
{
}

/// A single press of `HOME` costs one press at every depth.
pub proof fn lemma_press_costs_one(keypad: &Keypad, depth: nat)
    ensures
        keypad.presses(seq![HOME], depth) == 1,
    decreases depth, 1nat,
{
    let press = seq![HOME];
    if depth > 0 {
        assert(press.drop_last() == Seq::<char>::empty());
        assert(keypad.typed(press.drop_last(), depth) == 0);
        assert(arm_before(press) == HOME);
        assert(press.last() == HOME);
        lemma_stay_costs_one(keypad, HOME, depth);
    }
}

/// A step from a button to itself costs exactly one press at every depth:
/// the arm does not move, and the press is handed on unchanged.
pub proof fn lemma_stay_costs_one(keypad: &Keypad, button: char, depth: nat)
    requires
        depth > 0,
    ensures
        keypad.step_presses(button, button, depth) == 1,
    decreases depth, 0nat,
{
    let options = keypad.candidates(button, button);
    assert(options.len() == 1);
    assert(options[0] == seq![HOME]);
    if depth - 1 > 0 {
        lemma_press_costs_one(keypad, (depth - 1) as nat);
    } else {
        assert(keypad.presses(seq![HOME], 0) == 1);
    }
}

proof fn lemma_least_without_keypads(keypad: &Keypad, options: Seq<Seq<char>>)
    requires
        options.len() > 0,
        forall|i: int| 0 <= i < options.len() ==> (#[trigger] options[i]).len() >= 1,
    ensures
        keypad.least_presses(options, 0) >= 1,
    decreases options.len(),
{
    if options.len() == 1 {
        assert(keypad.presses(options[0], 0) == options[0].len());
    } else {
        assert forall|i: int| 0 <= i < options.drop_last().len() implies (
        #[trigger] options.drop_last()[i]).len() >= 1 by {
            assert(options.drop_last()[i] == options[i]);
        }
        lemma_least_without_keypads(keypad, options.drop_last());
        assert(options.last() == options[options.len() - 1]);
        assert(keypad.presses(options.last(), 0) == options.last().len());
    }
}

proof fn lemma_typed_through_one(keypad: &Keypad, sequence: Seq<char>)
    requires
        keypad.wf(),
        keypad.has_button(HOME),
        keypad.has_buttons(sequence),
    ensures
        keypad.typed(sequence, 1) >= sequence.len(),
    decreases sequence.len(),
{
    if sequence.len() > 0 {
        lemma_typed_through_one(keypad, sequence.drop_last());
        let from = arm_before(sequence);
        let to = sequence.last();
        if sequence.len() > 1 {
            assert(keypad.has_button(sequence[sequence.len() - 2]));
        }
        assert(keypad.has_button(sequence[sequence.len() - 1]));
        lemma_candidates(keypad, from, to);
        let options = keypad.candidates(from, to);
        assert forall|i: int| 0 <= i < options.len() implies (#[trigger] options[i]).len() >= 1 by {
            if from != to {
                assert(options[i] == keypad.routes(from, to)[i].push(HOME));
            }
        }
        lemma_least_without_keypads(keypad, options);
        assert(keypad.step_presses(from, to, 1) == keypad.least_presses(options, 0));
        assert(keypad.typed(sequence, 1) == keypad.typed(sequence.drop_last(), 1)
            + keypad.step_presses(from, to, 1));
    }
}

/// One more keypad between the human and a sequence never makes the
/// sequence cheaper.
pub proof fn lemma_deeper_costs_no_less(keypad: &Keypad, sequence: Seq<char>, depth: nat)
    requires
        keypad.wf(),
        keypad.drives_itself(),
        keypad.has_buttons(sequence),
    ensures
        keypad.presses(sequence, depth) <= keypad.presses(sequence, depth + 1),
    decreases depth, 2nat, sequence.len(),
{
    if depth == 0 {
        lemma_typed_through_one(keypad, sequence);
    } else {
        lemma_typed_grows(keypad, sequence, depth);
    }
}

proof fn lemma_typed_grows(keypad: &Keypad, sequence: Seq<char>, depth: nat)
    requires
        keypad.wf(),
        keypad.drives_itself(),
        keypad.has_buttons(sequence),
        depth > 0,
    ensures
        keypad.typed(sequence, depth) <= keypad.typed(sequence, depth + 1),
    decreases depth, 1nat, sequence.len(),
{
    if sequence.len() > 0 {
        lemma_typed_grows(keypad, sequence.drop_last(), depth);
        let from = arm_before(sequence);
        let to = sequence.last();
        if sequence.len() > 1 {
            assert(keypad.has_button(sequence[sequence.len() - 2]));
        }
        assert(keypad.has_button(sequence[sequence.len() - 1]));
        lemma_candidates(keypad, from, to);
        let options = keypad.candidates(from, to);
        lemma_least_grows(keypad, options, (depth - 1) as nat);
        assert(keypad.step_presses(from, to, depth) == keypad.least_presses(
            options,
            (depth - 1) as nat,
        ));
        assert(keypad.step_presses(from, to, depth + 1) == keypad.least_presses(options, depth));
        assert(keypad.typed(sequence, depth) == keypad.typed(sequence.drop_last(), depth)
            + keypad.step_presses(from, to, depth));
        assert(keypad.typed(sequence, depth + 1) == keypad.typed(sequence.drop_last(), depth + 1)
            + keypad.step_presses(from, to, depth + 1));
    }
}

proof fn lemma_least_grows(keypad: &Keypad, options: Seq<Seq<char>>, depth: nat)
    requires
        keypad.wf(),
        keypad.drives_itself(),
        forall|i: int| 0 <= i < options.len() ==> all_keys(#[trigger] options[i]),
    ensures
        keypad.least_presses(options, depth) <= keypad.least_presses(options, depth + 1),
    decreases depth, 3nat, options.len(),
{
    if options.len() == 1 {
        lemma_keys_are_buttons(keypad, options[0]);
        lemma_deeper_costs_no_less(keypad, options[0], depth);
    } else if options.len() > 1 {
        lemma_least_grows(keypad, options.drop_last(), depth);
        lemma_keys_are_buttons(keypad, options.last());
        lemma_deeper_costs_no_less(keypad, options.last(), depth);
    }
}

/// The least cost among options is the cost of one of them, and no option
/// costs less.
pub proof fn lemma_least_is_reached(keypad: &Keypad, options: Seq<Seq<char>>, depth: nat) -> (i: int)
    requires
        options.len() > 0,
    ensures
        0 <= i < options.len(),
        keypad.least_presses(options, depth) == keypad.presses(options[i], depth),
        forall|j: int|
            0 <= j < options.len() ==> keypad.least_presses(options, depth) <= keypad.presses(
                #[trigger] options[j],
                depth,
            ),
    decreases options.len(),
{
    if options.len() == 1 {
        0
    } else {
        let head = options.drop_last();
        let n = lemma_least_is_reached(keypad, head, depth);
        assert(head[n] == options[n]);
        assert forall|j: int| 0 <= j < options.len() implies keypad.least_presses(options, depth)
            <= keypad.presses(#[trigger] options[j], depth) by {
            if j < head.len() {
                assert(head[j] == options[j]);
            }
        }
        if keypad.presses(options.last(), depth) < keypad.least_presses(head, depth) {
            options.len() - 1
        } else {
            n
        }
    }
}

/// Two keypads with the same grid have the same buttons in the same cells.
pub proof fn lemma_buttons_of_the_grid(one: &Keypad, other: &Keypad, label: char)
    requires
        one.wf(),
        other.wf(),
        one.grid_view() == other.grid_view(),
        one.has_button(label),
    ensures
        other.has_button(label),
        other.cell_of(label) == one.cell_of(label),
{
    let grid = one.grid_view();
    let i = one.number_of(label);
    let cell = one.buttons[i].cell();
    assert(one.spots()[i].cell() == cell);
    assert(holds_button(grid, cell) && label_at(grid, cell) == label);
    let j = choose|j: int| 0 <= j < other.spots().len() && (#[trigger] other.spots()[j]).cell() == cell;
    assert(other.buttons[j].label == label);
    let found = other.number_of(label);
    if found < j {
        assert(other.buttons[found].label != other.buttons[j].label);
    } else if j < found {
        assert(other.buttons[j].label != other.buttons[found].label);
    }
    assert(other.buttons[j].cell() == cell);
}

/// Every candidate for a step on one keypad is a candidate for it on any
/// keypad with the same grid.
pub proof fn lemma_candidates_of_the_grid(
    one: &Keypad,
    other: &Keypad,
    from: char,
    to: char,
    candidate: Seq<char>,
)
    requires
        one.wf(),
        other.wf(),
        one.grid_view() == other.grid_view(),
        one.has_button(from),
        one.has_button(to),
        one.candidates(from, to).contains(candidate),
    ensures
        other.candidates(from, to).contains(candidate),
{
    if from == to {
        assert(other.candidates(from, to)[0] == candidate);
    } else {
        let i = choose|i: int|
            0 <= i < one.candidates(from, to).len() && one.candidates(from, to)[i] == candidate;
        let route = one.routes(from, to)[i];
        assert(one.routes(from, to).contains(route));
        assert(catalogued(one.grid_view(), one.buttons@, one.number_of(from), one.number_of(to)));
        lemma_buttons_of_the_grid(one, other, from);
        lemma_buttons_of_the_grid(one, other, to);
        assert(catalogued(other.grid_view(), other.buttons@, other.number_of(from), other.number_of(to)));
        assert(other.routes(from, to).contains(route));
        let j = choose|j: int| 0 <= j < other.routes(from, to).len() && other.routes(from, to)[j] == route;
        assert(other.candidates(from, to)[j] == candidate);
    }
}

/// What a sequence costs depends on the grid of the keypad alone: not on
/// the order in which a keypad holds its buttons or the routes between two
/// of them.
pub proof fn lemma_presses_of_the_grid(one: &Keypad, other: &Keypad, sequence: Seq<char>, depth: nat)
    requires
        one.wf(),
        other.wf(),
        one.grid_view() == other.grid_view(),
        depth >= 1 ==> one.has_button(HOME) && one.has_buttons(sequence),
        depth >= 2 ==> one.drives_itself(),
    ensures
        one.presses(sequence, depth) == other.presses(sequence, depth),
    decreases depth, 2nat, sequence.len(),
{
    if depth > 0 {
        lemma_typed_of_the_grid(one, other, sequence, depth);
    }
}

proof fn lemma_typed_of_the_grid(one: &Keypad, other: &Keypad, sequence: Seq<char>, depth: nat)
    requires
        one.wf(),
        other.wf(),
        one.grid_view() == other.grid_view(),
        depth >= 1,
        one.has_button(HOME),
        one.has_buttons(sequence),
        depth >= 2 ==> one.drives_itself(),
    ensures
        one.typed(sequence, depth) == other.typed(sequence, depth),
    decreases depth, 1nat, sequence.len(),
{
    if sequence.len() > 0 {
        let head = sequence.drop_last();
        assert(one.has_buttons(head)) by {
            assert forall|i: int| 0 <= i < head.len() implies one.has_button(#[trigger] head[i]) by {
                assert(head[i] == sequence[i]);
            }
        }
        lemma_typed_of_the_grid(one, other, head, depth);
        if sequence.len() > 1 {
            assert(one.has_button(sequence[sequence.len() - 2]));
        }
        assert(one.has_button(sequence[sequence.len() - 1]));
        lemma_step_of_the_grid(one, other, arm_before(sequence), sequence.last(), depth);
    }
}

proof fn lemma_step_of_the_grid(one: &Keypad, other: &Keypad, from: char, to: char, depth: nat)
    requires
        one.wf(),
        other.wf(),
        one.grid_view() == other.grid_view(),
        depth >= 1,
        one.has_button(from),
        one.has_button(to),
        depth >= 2 ==> one.drives_itself(),
    ensures
        one.step_presses(from, to, depth) == other.step_presses(from, to, depth),
    decreases depth, 0nat, 0nat,
{
    let nearer = (depth - 1) as nat;
    let mine = one.candidates(from, to);
    let theirs = other.candidates(from, to);
    lemma_buttons_of_the_grid(one, other, from);
    lemma_buttons_of_the_grid(one, other, to);
    lemma_candidates(one, from, to);
    lemma_candidates(other, from, to);
    let i = lemma_least_is_reached(one, mine, nearer);
    let j = lemma_least_is_reached(other, theirs, nearer);
    assert(mine.contains(mine[i]));
    lemma_candidates_of_the_grid(one, other, from, to, mine[i]);
    let at = choose|at: int| 0 <= at < theirs.len() && theirs[at] == mine[i];
    assert(theirs.contains(theirs[j]));
    lemma_candidates_of_the_grid(other, one, from, to, theirs[j]);
    let back = choose|back: int| 0 <= back < mine.len() && mine[back] == theirs[j];
    if nearer >= 1 {
        lemma_keys_are_buttons(one, mine[i]);
        lemma_keys_are_buttons(one, mine[back]);
    }
    lemma_presses_of_the_grid(one, other, mine[i], nearer);
    lemma_presses_of_the_grid(one, other, mine[back], nearer);
}

/// Whether the sequence holds a button other than `HOME`, so that the arm
/// has to move to type it.
pub open spec fn has_move(sequence: Seq<char>) -> bool {
    exists|i: int| 0 <= i < sequence.len() && #[trigger] sequence[i] != HOME
}

/// Between two different buttons every candidate holds a move.
pub proof fn lemma_candidates_move(keypad: &Keypad, from: char, to: char)
    requires
        keypad.wf(),
        keypad.has_button(from),
        keypad.has_button(to),
        from != to,
    ensures
        forall|i: int|
            0 <= i < keypad.candidates(from, to).len() ==> has_move(
                #[trigger] keypad.candidates(from, to)[i],
            ) && keypad.candidates(from, to)[i].len() >= 2,
{
    let options = keypad.candidates(from, to);
    let a = keypad.number_of(from);
    let b = keypad.number_of(to);
    let routes = keypad.routes(from, to);
    assert(catalogued(keypad.grid_view(), keypad.buttons@, a, b));
    assert forall|i: int| 0 <= i < options.len() implies has_move(#[trigger] options[i])
        && options[i].len() >= 2 by {
        assert(routes.contains(routes[i]));
        lemma_walk_is_moves(keypad.grid_view(), keypad.buttons[a].cell(), routes[i]);
        if a < b {
            assert(keypad.spots()[a].cell() != keypad.spots()[b].cell());
        } else {
            assert(keypad.spots()[b].cell() != keypad.spots()[a].cell());
        }
        assert(routes[i].len() > 0);
        assert(options[i][0] == routes[i][0]);
        assert(is_move(routes[i][0]));
    }
}

/// A sequence of presses of `HOME` alone costs one press for each at every
/// depth: no arm has to move.
pub proof fn lemma_presses_alone_cost_themselves(keypad: &Keypad, sequence: Seq<char>, depth: nat)
    requires
        !has_move(sequence),
    ensures
        keypad.presses(sequence, depth) == sequence.len(),
    decreases sequence.len(),
{
    if depth > 0 && sequence.len() > 0 {
        let head = sequence.drop_last();
        assert forall|i: int| 0 <= i < head.len() implies #[trigger] head[i] == HOME by {
            assert(head[i] == sequence[i]);
        }
        lemma_presses_alone_cost_themselves(keypad, head, depth);
        if sequence.len() > 1 {
            assert(sequence[sequence.len() - 2] == HOME);
        }
        assert(sequence[sequence.len() - 1] == HOME);
        lemma_stay_costs_one(keypad, HOME, depth);
        assert(keypad.typed(sequence, depth) == keypad.typed(head, depth) + keypad.step_presses(
            arm_before(sequence),
            sequence.last(),
            depth,
        ));
        assert(keypad.presses(head, depth) == keypad.typed(head, depth));
    }
}

/// Through one keypad a step between two different buttons costs at least
/// two presses.
proof fn lemma_move_through_one(keypad: &Keypad, options: Seq<Seq<char>>)
    requires
        options.len() > 0,
        forall|i: int| 0 <= i < options.len() ==> (#[trigger] options[i]).len() >= 2,
    ensures
        keypad.least_presses(options, 0) >= 2,
    decreases options.len(),
{
    if options.len() == 1 {
        assert(keypad.presses(options[0], 0) == options[0].len());
    } else {
        assert forall|i: int| 0 <= i < options.drop_last().len() implies (
        #[trigger] options.drop_last()[i]).len() >= 2 by {
            assert(options.drop_last()[i] == options[i]);
        }
        lemma_move_through_one(keypad, options.drop_last());
        assert(options.last() == options[options.len() - 1]);
        assert(keypad.presses(options.last(), 0) == options.last().len());
    }
}

proof fn lemma_typed_through_one_costs_more(keypad: &Keypad, sequence: Seq<char>)
    requires
        keypad.wf(),
        keypad.has_button(HOME),
        keypad.has_buttons(sequence),
        has_move(sequence),
    ensures
        keypad.typed(sequence, 1) > sequence.len(),
    decreases sequence.len(),
{
    let head = sequence.drop_last();
    let from = arm_before(sequence);
    let to = sequence.last();
    let at = choose|i: int| 0 <= i < sequence.len() && #[trigger] sequence[i] != HOME;
    if sequence.len() > 1 {
        assert(keypad.has_button(sequence[sequence.len() - 2]));
    }
    assert(keypad.has_button(sequence[sequence.len() - 1]));
    assert(keypad.has_buttons(head)) by {
        assert forall|i: int| 0 <= i < head.len() implies keypad.has_button(#[trigger] head[i]) by {
            assert(head[i] == sequence[i]);
        }
    }
    let options = keypad.candidates(from, to);
    assert(keypad.step_presses(from, to, 1) == keypad.least_presses(options, 0));
    assert(keypad.typed(sequence, 1) == keypad.typed(head, 1) + keypad.step_presses(from, to, 1));
    if has_move(head) {
        lemma_typed_through_one_costs_more(keypad, head);
        lemma_candidates(keypad, from, to);
        assert forall|i: int| 0 <= i < options.len() implies (#[trigger] options[i]).len() >= 1 by {
            if from != to {
                assert(options[i] == keypad.routes(from, to)[i].push(HOME));
            }
        }
        lemma_least_without_keypads(keypad, options);
    } else {
        lemma_typed_through_one(keypad, head);
        if at < head.len() {
            assert(head[at] != HOME);
        }
        assert(to != HOME);
        if sequence.len() > 1 {
            assert(head[sequence.len() - 2] == sequence[sequence.len() - 2]);
            assert(from == HOME);
        }
        lemma_candidates(keypad, from, to);
        lemma_candidates_move(keypad, from, to);
        lemma_move_through_one(keypad, options);
    }
}

/// One more keypad between the human and a sequence makes the sequence
/// dearer as soon as an arm has to move to type it. The counts are those
/// without a limit: a count that is held capped cannot grow.
pub proof fn lemma_deeper_costs_more(keypad: &Keypad, sequence: Seq<char>, depth: nat)
    requires
        keypad.wf(),
        keypad.drives_itself(),
        keypad.has_buttons(sequence),
        has_move(sequence),
    ensures
        keypad.presses(sequence, depth) < keypad.presses(sequence, depth + 1),
    decreases depth, 2nat, sequence.len(),
{
    if depth == 0 {
        lemma_typed_through_one_costs_more(keypad, sequence);
    } else {
        lemma_typed_costs_more(keypad, sequence, depth);
    }
}

/// One more keypad between the human and a sequence leaves its cost as it
/// is exactly where no arm has to move to type it.
pub proof fn lemma_same_cost_means_no_move(keypad: &Keypad, sequence: Seq<char>, depth: nat)
    requires
        keypad.wf(),
        keypad.drives_itself(),
        keypad.has_buttons(sequence),
    ensures
        keypad.presses(sequence, depth) == keypad.presses(sequence, depth + 1) <==> !has_move(sequence),
{
    if has_move(sequence) {
        lemma_deeper_costs_more(keypad, sequence, depth);
    } else {
        lemma_presses_alone_cost_themselves(keypad, sequence, depth);
        lemma_presses_alone_cost_themselves(keypad, sequence, depth + 1);
    }
}

proof fn lemma_typed_costs_more(keypad: &Keypad, sequence: Seq<char>, depth: nat)
    requires
        keypad.wf(),
        keypad.drives_itself(),
        keypad.has_buttons(sequence),
        has_move(sequence),
        depth > 0,
    ensures
        keypad.typed(sequence, depth) < keypad.typed(sequence, depth + 1),
    decreases depth, 1nat, sequence.len(),
{
    let head = sequence.drop_last();
    let from = arm_before(sequence);
    let to = sequence.last();
    let at = choose|i: int| 0 <= i < sequence.len() && #[trigger] sequence[i] != HOME;
    if sequence.len() > 1 {
        assert(keypad.has_button(sequence[sequence.len() - 2]));
    }
    assert(keypad.has_button(sequence[sequence.len() - 1]));
    assert(keypad.has_buttons(head)) by {
        assert forall|i: int| 0 <= i < head.len() implies keypad.has_button(#[trigger] head[i]) by {
            assert(head[i] == sequence[i]);
        }
    }
    let options = keypad.candidates(from, to);
    lemma_candidates(keypad, from, to);
    assert(keypad.step_presses(from, to, depth) == keypad.least_presses(options, (depth - 1) as nat));
    assert(keypad.step_presses(from, to, depth + 1) == keypad.least_presses(options, depth));
    assert(keypad.typed(sequence, depth) == keypad.typed(head, depth) + keypad.step_presses(
        from,
        to,
        depth,
    ));
    assert(keypad.typed(sequence, depth + 1) == keypad.typed(head, depth + 1) + keypad.step_presses(
        from,
        to,
        depth + 1,
    ));
    if has_move(head) {
        lemma_typed_costs_more(keypad, head, depth);
        lemma_least_grows(keypad, options, (depth - 1) as nat);
    } else {
        lemma_typed_grows(keypad, head, depth);
        if at < head.len() {
            assert(head[at] != HOME);
        }
        assert(to != HOME);
        if sequence.len() > 1 {
            assert(head[sequence.len() - 2] == sequence[sequence.len() - 2]);
            assert(from == HOME);
        }
        lemma_candidates_move(keypad, from, to);
        lemma_least_costs_more(keypad, options, (depth - 1) as nat);
    }
}

proof fn lemma_least_costs_more(keypad: &Keypad, options: Seq<Seq<char>>, depth: nat)
    requires
        keypad.wf(),
        keypad.drives_itself(),
        options.len() > 0,
        forall|i: int| 0 <= i < options.len() ==> all_keys(#[trigger] options[i]) && has_move(options[i]),
    ensures
        keypad.least_presses(options, depth) < keypad.least_presses(options, depth + 1),
    decreases depth, 3nat, options.len(),
{
    if options.len() == 1 {
        lemma_keys_are_buttons(keypad, options[0]);
        lemma_deeper_costs_more(keypad, options[0], depth);
    } else {
        lemma_least_costs_more(keypad, options.drop_last(), depth);
        lemma_keys_are_buttons(keypad, options.last());
        lemma_deeper_costs_more(keypad, options.last(), depth);
    }
}

/// Each of `options` with `prefix` before it.
pub open spec fn appended(prefix: Seq<char>, options: Seq<Seq<char>>) -> Seq<Seq<char>> {
    Seq::new(options.len(), |j: int| prefix + options[j])
}

/// Every prefix followed by every option: the prefixes in their order, and
/// for each the options in theirs.
pub open spec fn combined(prefixes: Seq<Seq<char>>, options: Seq<Seq<char>>) -> Seq<Seq<char>>
    decreases prefixes.len(),
{
    if prefixes.len() == 0 {
        Seq::empty()
    } else {
        combined(prefixes.drop_last(), options) + appended(prefixes.last(), options)
    }
}

impl Keypad {
    /// Every sequence of moves and presses that types `sequence` on this
    /// keypad over shortest routes, the arm starting on `HOME`.
    pub open spec fn all_sequences(&self, sequence: Seq<char>) -> Seq<Seq<char>>
        decreases sequence.len(),
    {
        if sequence.len() == 0 {
            seq![Seq::<char>::empty()]
        } else {
            combined(
                self.all_sequences(sequence.drop_last()),
                self.candidates(arm_before(sequence), sequence.last()),
            )
        }
    }

    /// The numbers of candidates for the steps of `sequence`, multiplied.
    pub open spec fn sequence_count(&self, sequence: Seq<char>) -> nat
        decreases sequence.len(),
    {
        if sequence.len() == 0 {
            1
        } else {
            self.sequence_count(sequence.drop_last()) * self.candidates(
                arm_before(sequence),
                sequence.last(),
            ).len()
        }
    }
}

/// There are as many combinations as prefixes times options.
pub proof fn lemma_combined_len(prefixes: Seq<Seq<char>>, options: Seq<Seq<char>>)
    ensures
        combined(prefixes, options).len() == prefixes.len() * options.len(),
    decreases prefixes.len(),
{
    if prefixes.len() == 0 {
        assert(0 * options.len() == 0);
    } else {
        lemma_combined_len(prefixes.drop_last(), options);
        assert((prefixes.len() - 1) * options.len() + options.len() == prefixes.len()
            * options.len()) by (nonlinear_arith);
    }
}

/// The prefix and the option of which a combination is made.
pub proof fn lemma_combined_at(prefixes: Seq<Seq<char>>, options: Seq<Seq<char>>, i: int) -> (at: (
    int,
    int,
))
    requires
        0 <= i < combined(prefixes, options).len(),
    ensures
        0 <= at.0 < prefixes.len(),
        0 <= at.1 < options.len(),
        combined(prefixes, options)[i] == prefixes[at.0] + options[at.1],
    decreases prefixes.len(),
{
    let head = combined(prefixes.drop_last(), options);
    if i < head.len() {
        lemma_combined_at(prefixes.drop_last(), options, i)
    } else {
        (prefixes.len() - 1, i - head.len())
    }
}

/// Two sequences that end in parts of the same length are equal only where
/// their parts are.
proof fn lemma_same_parts(p: Seq<char>, o: Seq<char>, q: Seq<char>, r: Seq<char>)
    requires
        p + o == q + r,
        o.len() == r.len(),
    ensures
        p == q,
        o == r,
{
    assert((p + o).len() == p.len() + o.len());
    assert((q + r).len() == q.len() + r.len());
    assert(p == (p + o).subrange(0, p.len() as int));
    assert(q == (q + r).subrange(0, q.len() as int));
    assert(o == (p + o).subrange(p.len() as int, (p + o).len() as int));
    assert(r == (q + r).subrange(q.len() as int, (q + r).len() as int));
}

/// Where no prefix and no option stands twice and the options are equally
/// long, no combination stands twice.
pub proof fn lemma_combined_differ(prefixes: Seq<Seq<char>>, options: Seq<Seq<char>>)
    requires
        all_differ(prefixes),
        all_differ(options),
        forall|a: int, b: int|
            0 <= a < options.len() && 0 <= b < options.len() ==> (#[trigger] options[a]).len() == (
            #[trigger] options[b]).len(),
    ensures
        all_differ(combined(prefixes, options)),
    decreases prefixes.len(),
{
    let all = combined(prefixes, options);
    if prefixes.len() > 0 {
        let rest = prefixes.drop_last();
        let head = combined(rest, options);
        let tail = appended(prefixes.last(), options);
        assert forall|m: int, n: int| #![trigger rest[m], rest[n]] 0 <= m < n < rest.len() implies rest[m]
            != rest[n] by {
            assert(prefixes[m] != prefixes[n]);
        }
        lemma_combined_differ(rest, options);
        assert forall|m: int, n: int| #![trigger all[m], all[n]] 0 <= m < n < all.len() implies all[m]
            != all[n] by {
            if n < head.len() {
                assert(head[m] != head[n]);
            } else if m < head.len() {
                let at = lemma_combined_at(rest, options, m);
                let b = n - head.len();
                assert(all[n] == prefixes.last() + options[b]);
                assert(all[m] == prefixes[at.0] + options[at.1]);
                assert(options[at.1].len() == options[b].len());
                if all[m] == all[n] {
                    lemma_same_parts(prefixes[at.0], options[at.1], prefixes.last(), options[b]);
                    assert(prefixes[at.0] != prefixes[prefixes.len() - 1]);
                }
            } else {
                let a = m - head.len();
                let b = n - head.len();
                assert(all[m] == prefixes.last() + options[a]);
                assert(all[n] == prefixes.last() + options[b]);
                assert(options[a].len() == options[b].len());
                if all[m] == all[n] {
                    lemma_same_parts(prefixes.last(), options[a], prefixes.last(), options[b]);
                    assert(options[a] != options[b]);
                }
            }
        }
    }
}

/// No candidate for a step stands twice among them, and they are equally
/// long.
pub proof fn lemma_candidates_differ(keypad: &Keypad, from: char, to: char)
    requires
        keypad.wf(),
        keypad.has_button(from),
        keypad.has_button(to),
    ensures
        all_differ(keypad.candidates(from, to)),
        forall|a: int, b: int|
            0 <= a < keypad.candidates(from, to).len() && 0 <= b < keypad.candidates(from, to).len()
                ==> (#[trigger] keypad.candidates(from, to)[a]).len() == (#[trigger] keypad.candidates(
                from,
                to,
            )[b]).len(),
{
    let options = keypad.candidates(from, to);
    if from != to {
        let routes = keypad.routes(from, to);
        assert(catalogued(keypad.grid_view(), keypad.buttons@, keypad.number_of(from), keypad.number_of(to)));
        assert forall|m: int, n: int|
            #![trigger options[m], options[n]]
            0 <= m < n < options.len() implies options[m] != options[n] by {
            assert(routes[m] != routes[n]);
            assert(routes[m].push(HOME).drop_last() == routes[m]);
            assert(routes[n].push(HOME).drop_last() == routes[n]);
        }
        assert forall|a: int, b: int| 0 <= a < options.len() && 0 <= b < options.len() implies (
        #[trigger] options[a]).len() == (#[trigger] options[b]).len() by {
            assert(routes.contains(routes[a]));
            assert(routes.contains(routes[b]));
            lemma_catalog_routes_are_equally_long(keypad, from, to, routes[a], routes[b]);
        }
    }
}

/// The sequences that type a sequence of buttons are as many as the numbers
/// of candidates for its steps, multiplied: for a step between two different
/// buttons the number of shortest routes, for a step that stays one.
pub proof fn lemma_all_sequences_count(keypad: &Keypad, sequence: Seq<char>)
    ensures
        keypad.all_sequences(sequence).len() == keypad.sequence_count(sequence),
    decreases sequence.len(),
{
    if sequence.len() > 0 {
        lemma_all_sequences_count(keypad, sequence.drop_last());
        lemma_combined_len(
            keypad.all_sequences(sequence.drop_last()),
            keypad.candidates(arm_before(sequence), sequence.last()),
        );
    }
}

/// No sequence stands twice among those that type a sequence of buttons of
/// a keypad.
pub proof fn lemma_all_sequences_differ(keypad: &Keypad, sequence: Seq<char>)
    requires
        keypad.wf(),
        keypad.has_button(HOME),
        keypad.has_buttons(sequence),
    ensures
        all_differ(keypad.all_sequences(sequence)),
    decreases sequence.len(),
{
    if sequence.len() > 0 {
        lemma_all_sequences_differ(keypad, sequence.drop_last());
        if sequence.len() > 1 {
            assert(keypad.has_button(sequence[sequence.len() - 2]));
        }
        assert(keypad.has_button(sequence[sequence.len() - 1]));
        lemma_candidates_differ(keypad, arm_before(sequence), sequence.last());
        lemma_combined_differ(
            keypad.all_sequences(sequence.drop_last()),
            keypad.candidates(arm_before(sequence), sequence.last()),
        );
    }
}

proof fn lemma_combined_keys(prefixes: Seq<Seq<char>>, options: Seq<Seq<char>>)
    requires
        forall|i: int| 0 <= i < prefixes.len() ==> all_keys(#[trigger] prefixes[i]),
        forall|i: int| 0 <= i < options.len() ==> all_keys(#[trigger] options[i]),
    ensures
        forall|i: int|
            0 <= i < combined(prefixes, options).len() ==> all_keys(
                #[trigger] combined(prefixes, options)[i],
            ),
        prefixes.len() > 0 && options.len() > 0 ==> combined(prefixes, options).len() > 0,
    decreases prefixes.len(),
{
    if prefixes.len() > 0 {
        lemma_combined_keys(prefixes.drop_last(), options);
        let head = combined(prefixes.drop_last(), options);
        let tail = appended(prefixes.last(), options);
        assert forall|i: int| 0 <= i < combined(prefixes, options).len() implies all_keys(
            #[trigger] combined(prefixes, options)[i],
        ) by {
            if i >= head.len() {
                let j = i - head.len();
                assert(combined(prefixes, options)[i] == tail[j]);
                assert(all_keys(prefixes.last()));
                assert(all_keys(options[j]));
                assert forall|t: int| 0 <= t < tail[j].len() implies is_key(#[trigger] tail[j][t]) by {
                    if t < prefixes.last().len() {
                        assert(tail[j][t] == prefixes.last()[t]);
                    } else {
                        assert(tail[j][t] == options[j][t - prefixes.last().len()]);
                    }
                }
            } else {
                assert(combined(prefixes, options)[i] == head[i]);
            }
        }
    }
}

/// There is at least one way to type a sequence of buttons of a keypad, and
/// every way is made of moves and presses.
pub proof fn lemma_all_sequences(keypad: &Keypad, sequence: Seq<char>)
    requires
        keypad.wf(),
        keypad.has_button(HOME),
        keypad.has_buttons(sequence),
    ensures
        keypad.all_sequences(sequence).len() > 0,
        forall|i: int|
            0 <= i < keypad.all_sequences(sequence).len() ==> all_keys(
                #[trigger] keypad.all_sequences(sequence)[i],
            ),
    decreases sequence.len(),
{
    if sequence.len() > 0 {
        lemma_all_sequences(keypad, sequence.drop_last());
        if sequence.len() > 1 {
            assert(keypad.has_button(sequence[sequence.len() - 2]));
        }
        assert(keypad.has_button(sequence[sequence.len() - 1]));
        lemma_candidates(keypad, arm_before(sequence), sequence.last());
        lemma_combined_keys(
            keypad.all_sequences(sequence.drop_last()),
            keypad.candidates(arm_before(sequence), sequence.last()),
        );
    }
}

impl Keypad {
    /// Every sequence of moves and presses that types `button_sequence` on
    /// this keypad over shortest routes, as `all_sequences` lists them: each
    /// once, and as many as `sequence_count` says.
    pub fn find_all_sequences(&self, button_sequence: &Vec<char>) -> (all_sequences: Vec<Vec<char>>)
        requires
            self.wf(),
            self.has_button(HOME),
            self.has_buttons(button_sequence@),
        ensures
            views(all_sequences@) == self.all_sequences(button_sequence@),
            all_sequences.len() == self.sequence_count(button_sequence@),
            all_differ(views(all_sequences@)),
    {
        let mut from_button = HOME;
        let mut all_sequences: Vec<Vec<char>> = Vec::new();
        all_sequences.push(Vec::new());
        assert(views(all_sequences@) == seq![Seq::<char>::empty()]);
        let mut i: usize = 0;
        assert(button_sequence@.take(0) == Seq::<char>::empty());
        while i < button_sequence.len()
            invariant
                i <= button_sequence.len(),
                self.wf(),
                self.has_buttons(button_sequence@),
                self.has_button(from_button),
                from_button == if i == 0 {
                    HOME
                } else {
                    button_sequence[i - 1]
                },
                views(all_sequences@) == self.all_sequences(button_sequence@.take(i as int)),
            decreases button_sequence.len() - i,
        {
            let to_button = button_sequence[i];
            let ghost longer = button_sequence@.take(i + 1);
            proof {
                assert(longer.drop_last() == button_sequence@.take(i as int));
                assert(longer.last() == to_button);
                assert(arm_before(longer) == from_button);
                assert(self.has_button(button_sequence@[i as int]));
            }
            let sequences_to_next_button = self.get_button_sequences_between_buttons(
                from_button,
                to_button,
            );
            let ghost prefixes = views(all_sequences@);
            let ghost options = views(sequences_to_next_button@);
            let mut appended_sequences: Vec<Vec<char>> = Vec::new();
            let mut p: usize = 0;
            assert(prefixes.take(0) == Seq::<Seq<char>>::empty());
            while p < all_sequences.len()
                invariant
                    p <= all_sequences.len(),
                    prefixes == views(all_sequences@),
                    options == views(sequences_to_next_button@),
                    views(appended_sequences@) == combined(prefixes.take(p as int), options),
                decreases all_sequences.len() - p,
            {
                let prev_sequence = &all_sequences[p];
                let ghost head = views(appended_sequences@);
                let mut o: usize = 0;
                while o < sequences_to_next_button.len()
                    invariant
                        o <= sequences_to_next_button.len(),
                        p < all_sequences.len(),
                        prev_sequence == all_sequences[p as int],
                        prefixes == views(all_sequences@),
                        options == views(sequences_to_next_button@),
                        views(appended_sequences@) == head + appended(
                            prev_sequence@,
                            options,
                        ).take(o as int),
                    decreases sequences_to_next_button.len() - o,
                {
                    let ghost before = views(appended_sequences@);
                    let both = chained(prev_sequence, &sequences_to_next_button[o]);
                    assert(options[o as int] == sequences_to_next_button[o as int]@);
                    appended_sequences.push(both);
                    assert(views(appended_sequences@) == before.push(both@));
                    assert(appended(prev_sequence@, options).take(o + 1) == appended(
                        prev_sequence@,
                        options,
                    ).take(o as int).push(both@));
                    o += 1;
                }
                proof {
                    assert(appended(prev_sequence@, options).take(o as int) == appended(
                        prev_sequence@,
                        options,
                    ));
                    assert(prefixes.take(p + 1).drop_last() == prefixes.take(p as int));
                    assert(prefixes.take(p + 1).last() == prev_sequence@);
                }
                p += 1;
            }
            proof {
                assert(prefixes.take(p as int) == prefixes);
            }
            all_sequences = appended_sequences;
            from_button = to_button;
            i += 1;
        }
        assert(button_sequence@.take(i as int) == button_sequence@);
        proof {
            lemma_all_sequences_count(self, button_sequence@);
            lemma_all_sequences_differ(self, button_sequence@);
        }
        all_sequences
    }
}

/// The least number of presses that the human makes to have `code` typed
/// on the keypad `numeric`, which is driven through `robots` keypads like
/// `directional`.
pub open spec fn code_presses(numeric: &Keypad, directional: &Keypad, code: Seq<char>, robots: nat) -> nat {
    directional.least_presses(numeric.all_sequences(code), robots)
}

/// Every prefix followed by every option is among the combinations.
proof fn lemma_combined_holds(prefixes: Seq<Seq<char>>, options: Seq<Seq<char>>, a: int, b: int)
    requires
        0 <= a < prefixes.len(),
        0 <= b < options.len(),
    ensures
        combined(prefixes, options).contains(prefixes[a] + options[b]),
    decreases prefixes.len(),
{
    let head = combined(prefixes.drop_last(), options);
    let tail = appended(prefixes.last(), options);
    let all = combined(prefixes, options);
    if a == prefixes.len() - 1 {
        assert(all[head.len() + b] == tail[b]);
    } else {
        lemma_combined_holds(prefixes.drop_last(), options, a, b);
        let i = choose|i: int| 0 <= i < head.len() && head[i] == prefixes.drop_last()[a] + options[b];
        assert(all[i] == head[i]);
    }
}

/// Every sequence that types a sequence of buttons on one keypad types it
/// on any keypad with the same grid.
pub proof fn lemma_all_sequences_of_the_grid(
    one: &Keypad,
    other: &Keypad,
    sequence: Seq<char>,
    typed: Seq<char>,
)
    requires
        one.wf(),
        other.wf(),
        one.grid_view() == other.grid_view(),
        one.has_button(HOME),
        one.has_buttons(sequence),
        one.all_sequences(sequence).contains(typed),
    ensures
        other.all_sequences(sequence).contains(typed),
    decreases sequence.len(),
{
    if sequence.len() == 0 {
        assert(other.all_sequences(sequence)[0] == typed);
    } else {
        let head = sequence.drop_last();
        let from = arm_before(sequence);
        let to = sequence.last();
        assert(one.has_buttons(head)) by {
            assert forall|i: int| 0 <= i < head.len() implies one.has_button(#[trigger] head[i]) by {
                assert(head[i] == sequence[i]);
            }
        }
        if sequence.len() > 1 {
            assert(one.has_button(sequence[sequence.len() - 2]));
        }
        assert(one.has_button(sequence[sequence.len() - 1]));
        let mine = one.all_sequences(head);
        let options = one.candidates(from, to);
        let i = choose|i: int|
            0 <= i < one.all_sequences(sequence).len() && one.all_sequences(sequence)[i] == typed;
        let at = lemma_combined_at(mine, options, i);
        assert(mine.contains(mine[at.0]));
        assert(options.contains(options[at.1]));
        lemma_all_sequences_of_the_grid(one, other, head, mine[at.0]);
        lemma_candidates_of_the_grid(one, other, from, to, options[at.1]);
        let theirs = other.all_sequences(head);
        let a = choose|a: int| 0 <= a < theirs.len() && theirs[a] == mine[at.0];
        let b = choose|b: int|
            0 <= b < other.candidates(from, to).len() && other.candidates(from, to)[b] == options[at.1];
        lemma_combined_holds(theirs, other.candidates(from, to), a, b);
    }
}

/// What a code costs depends on the grids of the two keypads alone.
pub proof fn lemma_code_presses_of_the_grids(
    numeric: &Keypad,
    directional: &Keypad,
    other_numeric: &Keypad,
    other_directional: &Keypad,
    code: Seq<char>,
    robots: nat,
)
    requires
        numeric.wf(),
        other_numeric.wf(),
        numeric.grid_view() == other_numeric.grid_view(),
        directional.wf(),
        other_directional.wf(),
        directional.grid_view() == other_directional.grid_view(),
        numeric.has_button(HOME),
        numeric.has_buttons(code),
        robots >= 1 ==> directional.drives_itself(),
    ensures
        code_presses(numeric, directional, code, robots) == code_presses(
            other_numeric,
            other_directional,
            code,
            robots,
        ),
{
    let mine = numeric.all_sequences(code);
    let theirs = other_numeric.all_sequences(code);
    lemma_buttons_of_the_grid(numeric, other_numeric, HOME);
    assert(other_numeric.has_buttons(code)) by {
        assert forall|i: int| 0 <= i < code.len() implies other_numeric.has_button(#[trigger] code[i]) by {
            lemma_buttons_of_the_grid(numeric, other_numeric, code[i]);
        }
    }
    lemma_all_sequences(numeric, code);
    lemma_all_sequences(other_numeric, code);
    let i = lemma_least_is_reached(directional, mine, robots);
    let j = lemma_least_is_reached(other_directional, theirs, robots);
    assert(mine.contains(mine[i]));
    lemma_all_sequences_of_the_grid(numeric, other_numeric, code, mine[i]);
    let at = choose|at: int| 0 <= at < theirs.len() && theirs[at] == mine[i];
    assert(theirs.contains(theirs[j]));
    lemma_all_sequences_of_the_grid(other_numeric, numeric, code, theirs[j]);
    let back = choose|back: int| 0 <= back < mine.len() && mine[back] == theirs[j];
    if robots >= 1 {
        lemma_keys_are_buttons(directional, mine[i]);
        lemma_keys_are_buttons(directional, mine[back]);
    }
    lemma_presses_of_the_grid(directional, other_directional, mine[i], robots);
    lemma_presses_of_the_grid(directional, other_directional, mine[back], robots);
}

/// The least number of presses for `numeric_code`, capped at the largest
/// 64-bit number: the cheapest, through `robots` directional keypads, of the
/// sequences that type the code on the numeric keypad.
pub fn get_min_button_presses_for_numeric_code(
    numeric: &Keypad,
    directional: &Keypad,
    numeric_code: &Vec<char>,
    robots: u8,
    cache: &mut PressCache,
) -> (min_button_presses: u64)
    requires
        numeric.wf(),
        numeric.has_button(HOME),
        numeric.has_buttons(numeric_code@),
        directional.wf(),
        robots >= 1 ==> directional.drives_itself(),
        old(cache).wf(directional),
    ensures
        min_button_presses == capped(code_presses(numeric, directional, numeric_code@, robots as nat)),
        final(cache).wf(directional),
        final(cache).keys() == directional.remembered_options(
            old(cache).keys(),
            numeric.all_sequences(numeric_code@),
            robots,
            numeric.all_sequences(numeric_code@).len(),
        ),
        final(cache).grown_from(old(cache), robots),
{
    let button_sequences = numeric.find_all_sequences(numeric_code);
    proof {
        lemma_all_sequences(numeric, numeric_code@);
        assert forall|n: int| 0 <= n < button_sequences.len() implies all_keys(
            (#[trigger] button_sequences[n])@,
        ) by {
            assert(views(button_sequences@)[n] == button_sequences[n]@);
        }
    }
    directional.least_button_presses(&button_sequences, robots, cache)
}

} // verus!
