//! A network of computers, each with a name, and the connections between
//! them: which three are connected with each other, and which is the
//! largest set of computers that are all connected with each other.

use crate::text::{
    comes_first, copy_range, is_before, lemma_comes_first_chain, lemma_comes_first_one_way,
    lemma_comes_first_total, lines, lines_of, same_chars, split, split_on, views,
};
use vstd::prelude::*;

verus! {

/// A connection between two computers.
#[derive(Debug)]
pub struct Connection {
    pub from: Vec<char>,
    pub to: Vec<char>,
}

/// Whether a line writes a connection: two names with a hyphen between
/// them.
pub open spec fn is_connection(line: Seq<char>) -> bool {
    split_on(line, '-').len() >= 2
}

/// Whether the connections are those that the lines write, one of each
/// line: the name before the first hyphen and the name after it.
pub open spec fn written(all: Seq<Seq<char>>, connections: Seq<Connection>) -> bool {
    &&& connections.len() == all.len()
    &&& forall|i: int|
        0 <= i < all.len() ==> is_connection(all[i]) && (#[trigger] connections[i]).from@ == split_on(
            all[i],
            '-',
        )[0] && connections[i].to@ == split_on(all[i], '-')[1]
}

/// Whether the connection `j` joins the computer `x` with the computer
/// `c`.
pub open spec fn joins(connections: Seq<Connection>, j: int, x: Seq<char>, c: Seq<char>) -> bool {
    (connections[j].from@ == x && connections[j].to@ == c) || (connections[j].to@ == x
        && connections[j].from@ == c)
}

/// Whether a connection from `first` on and before `upto` joins the
/// computer `x` with the computer `c`.
pub open spec fn linked_in(
    connections: Seq<Connection>,
    first: int,
    upto: int,
    x: Seq<char>,
    c: Seq<char>,
) -> bool {
    exists|j: int|
        first <= j < upto && 0 <= j < connections.len() && #[trigger] joins(connections, j, x, c)
}

/// Whether the name starts with a t.
pub open spec fn starts_with_t(name: Seq<char>) -> bool {
    name.len() > 0 && name[0] == 't'
}

/// The computers that make a set of three with the two of the connection
/// `i`, counted at that connection: those that later connections join with
/// the one and with the other, where one of the three names starts with a
/// t.
pub open spec fn thirds(connections: Seq<Connection>, i: int) -> Set<Seq<char>> {
    let a = connections[i].from@;
    let b = connections[i].to@;
    Set::new(
        |c: Seq<char>|
            linked_in(connections, i + 1, connections.len() as int, a, c) && linked_in(
                connections,
                i + 1,
                connections.len() as int,
                b,
                c,
            ) && (starts_with_t(a) || starts_with_t(b) || starts_with_t(c)),
    )
}

/// How many sets of three are counted at the first `n` connections.
pub open spec fn sets_of_three(connections: Seq<Connection>, n: nat) -> nat
    decreases n,
{
    if n == 0 {
        0
    } else {
        sets_of_three(connections, (n - 1) as nat) + thirds(connections, n - 1).len()
    }
}

/// The connections that the text writes, one on each line; nothing where a
/// line holds no hyphen.
pub fn parse_as_connections(input: &str) -> (result: Option<Vec<Connection>>)
    ensures
        result is Some <==> forall|i: int|
            0 <= i < lines_of(input@).len() ==> is_connection(#[trigger] lines_of(input@)[i]),
        result matches Some(connections) ==> written(lines_of(input@), connections@),
{
    let all = lines(input);
    let mut connections: Vec<Connection> = Vec::new();
    let mut i: usize = 0;
    while i < all.len()
        invariant
            i <= all.len(),
            views(all@) == lines_of(input@),
            connections.len() == i,
            forall|j: int| 0 <= j < i ==> is_connection(#[trigger] lines_of(input@)[j]),
            forall|j: int|
                0 <= j < i ==> (#[trigger] connections[j]).from@ == split_on(
                    lines_of(input@)[j],
                    '-',
                )[0] && connections[j].to@ == split_on(lines_of(input@)[j], '-')[1],
        decreases all.len() - i,
    {
        assert(views(all@)[i as int] == all[i as int]@);
        let parts = split(&all[i], '-');
        if parts.len() < 2 {
            return None;
        }
        assert(views(parts@)[0] == parts[0]@ && views(parts@)[1] == parts[1]@);
        let from = copy_range(&parts[0], 0, parts[0].len());
        let to = copy_range(&parts[1], 0, parts[1].len());
        connections.push(Connection { from, to });
        i += 1;
    }
    Some(connections)
}

/// Whether one of the three names starts with a t.
pub fn any_start_with_t(first: &Vec<char>, second: &Vec<char>, third: &Vec<char>) -> (any: bool)
    ensures
        any == (starts_with_t(first@) || starts_with_t(second@) || starts_with_t(third@)),
{
    (first.len() > 0 && first[0] == 't') || (second.len() > 0 && second[0] == 't') || (third.len()
        > 0 && third[0] == 't')
}

/// Whether the name stands in the list.
fn is_listed(names: &Vec<Vec<char>>, name: &Vec<char>) -> (found: bool)
    ensures
        found == views(names@).contains(name@),
{
    let mut i: usize = 0;
    while i < names.len()
        invariant
            i <= names.len(),
            forall|j: int| 0 <= j < i ==> views(names@)[j] != name@,
        decreases names.len() - i,
    {
        assert(views(names@)[i as int] == names[i as int]@);
        if same_chars(&names[i], name) {
            return true;
        }
        i += 1;
    }
    false
}

/// Puts a name at the end of a list in which no name stands twice, unless
/// it stands there.
fn list_once(names: &mut Vec<Vec<char>>, name: &Vec<char>)
    requires
        views(old(names)@).no_duplicates(),
    ensures
        views(final(names)@).no_duplicates(),
        final(names).len() <= old(names).len() + 1,
        forall|c: Seq<char>|
            views(final(names)@).contains(c) <==> views(old(names)@).contains(c) || c == name@,
{
    if !is_listed(names, name) {
        let ghost before = views(names@);
        let copy = copy_range(name, 0, name.len());
        assert(copy@ =~= name@);
        names.push(copy);
        proof {
            assert(views(names@) =~= before.push(name@));
            assert forall|c: Seq<char>| views(names@).contains(c) <==> before.contains(c) || c
                == name@ by {
                if before.contains(c) {
                    let i = choose|i: int| 0 <= i < before.len() && before[i] == c;
                    assert(views(names@)[i] == c);
                }
                if c == name@ {
                    assert(views(names@)[before.len() as int] == c);
                }
            }
        }
    }
}

/// The computers that the connections from `first` on join with the
/// computer `x`, each once.
fn connected_from(connections: &Vec<Connection>, first: usize, x: &Vec<char>) -> (found: Vec<
    Vec<char>,
>)
    requires
        first <= connections.len(),
    ensures
        views(found@).no_duplicates(),
        forall|c: Seq<char>|
            views(found@).contains(c) <==> linked_in(
                connections@,
                first as int,
                connections.len() as int,
                x@,
                c,
            ),
{
    let mut found: Vec<Vec<char>> = Vec::new();
    let mut j: usize = first;
    let ghost i = first - 1;
    assert(views(found@) =~= Seq::<Seq<char>>::empty());
    while j < connections.len()
        invariant
            i + 1 == first,
            first <= j <= connections.len(),
            views(found@).no_duplicates(),
            forall|c: Seq<char>|
                views(found@).contains(c) <==> linked_in(connections@, i + 1, j as int, x@, c),
        decreases connections.len() - j,
    {
        let ghost before = views(found@);
        if same_chars(x, &connections[j].from) {
            list_once(&mut found, &connections[j].to);
        }
        if same_chars(x, &connections[j].to) {
            list_once(&mut found, &connections[j].from);
        }
        proof {
            assert forall|c: Seq<char>|
                views(found@).contains(c) <==> linked_in(connections@, i + 1, j + 1, x@, c) by {
                if linked_in(connections@, i + 1, j + 1, x@, c) {
                    let k = choose|k: int|
                        i + 1 <= k < j + 1 && 0 <= k < connections.len() && #[trigger] joins(
                            connections@,
                            k,
                            x@,
                            c,
                        );
                    if k < j {
                        assert(linked_in(connections@, i + 1, j as int, x@, c));
                    }
                }
                if before.contains(c) {
                    let k = choose|k: int|
                        i + 1 <= k < j && 0 <= k < connections.len() && #[trigger] joins(
                            connections@,
                            k,
                            x@,
                            c,
                        );
                    assert(joins(connections@, k, x@, c));
                }
                if views(found@).contains(c) && !before.contains(c) {
                    assert(joins(connections@, j as int, x@, c));
                }
            }
        }
        j += 1;
    }
    found
}

/// How many of the computers of the second list stand in the first list
/// too and make, with the two computers `a` and `b`, three of which one has
/// a name that starts with a t.
fn count_common(
    a: &Vec<char>,
    b: &Vec<char>,
    with_a: &Vec<Vec<char>>,
    with_b: &Vec<Vec<char>>,
) -> (count: usize)
    ensures
        count == Set::new(
            |c: Seq<char>|
                views(with_a@).contains(c) && views(with_b@).contains(c) && (starts_with_t(a@)
                    || starts_with_t(b@) || starts_with_t(c)),
        ).len(),
        count <= with_b.len(),
{
    let ghost all = views(with_b@);
    let mut common: Vec<Vec<char>> = Vec::new();
    let mut i: usize = 0;
    assert(views(common@) =~= Seq::<Seq<char>>::empty());
    while i < with_b.len()
        invariant
            i <= with_b.len(),
            all == views(with_b@),
            common.len() <= i,
            views(common@).no_duplicates(),
            forall|c: Seq<char>|
                views(common@).contains(c) <==> views(with_a@).contains(c) && all.take(
                    i as int,
                ).contains(c) && (starts_with_t(a@) || starts_with_t(b@) || starts_with_t(c)),
        decreases with_b.len() - i,
    {
        let ghost before = views(common@);
        assert(all[i as int] == with_b[i as int]@);
        if is_listed(with_a, &with_b[i]) && any_start_with_t(a, b, &with_b[i]) {
            list_once(&mut common, &with_b[i]);
        }
        proof {
            let shorter = all.take(i as int);
            let longer = all.take(i + 1);
            assert forall|c: Seq<char>| longer.contains(c) <==> shorter.contains(c) || c
                == all[i as int] by {
                if longer.contains(c) {
                    let j = choose|j: int| 0 <= j < longer.len() && longer[j] == c;
                    if j < i {
                        assert(shorter[j] == c);
                    }
                }
                if shorter.contains(c) {
                    let j = choose|j: int| 0 <= j < shorter.len() && shorter[j] == c;
                    assert(longer[j] == c);
                }
                if c == all[i as int] {
                    assert(longer[i as int] == c);
                }
            }
        }
        i += 1;
    }
    proof {
        assert(all.take(i as int) == all);
        views(common@).unique_seq_to_set();
        assert(views(common@).to_set() =~= Set::new(
            |c: Seq<char>|
                views(with_a@).contains(c) && views(with_b@).contains(c) && (starts_with_t(a@)
                    || starts_with_t(b@) || starts_with_t(c)),
        ));
    }
    common.len()
}

/// Whether two lists hold the same connections, one by one.
pub open spec fn same_links(one: Seq<Connection>, other: Seq<Connection>) -> bool {
    one.len() == other.len() && forall|j: int|
        0 <= j < one.len() ==> (#[trigger] one[j]).from@ == other[j].from@ && one[j].to@
            == other[j].to@
}

/// The lines write one list of connections.
pub proof fn lemma_written_once(all: Seq<Seq<char>>, one: Seq<Connection>, other: Seq<Connection>)
    requires
        written(all, one),
        written(all, other),
    ensures
        same_links(one, other),
{
    assert forall|j: int| 0 <= j < one.len() implies (#[trigger] one[j]).from@ == other[j].from@
        && one[j].to@ == other[j].to@ by {
        assert(other[j].from@ == split_on(all[j], '-')[0]);
    }
}

/// The same connections join the same computers.
pub proof fn lemma_same_linked(
    one: Seq<Connection>,
    other: Seq<Connection>,
    first: int,
    upto: int,
    x: Seq<char>,
    c: Seq<char>,
)
    requires
        same_links(one, other),
        linked_in(one, first, upto, x, c),
    ensures
        linked_in(other, first, upto, x, c),
{
    let j = choose|j: int|
        first <= j < upto && 0 <= j < one.len() && #[trigger] joins(one, j, x, c);
    assert(one[j].from@ == other[j].from@ && one[j].to@ == other[j].to@);
    assert(joins(other, j, x, c));
}

/// The same connections give the same sets of three.
pub proof fn lemma_same_sets(one: Seq<Connection>, other: Seq<Connection>, n: nat)
    requires
        same_links(one, other),
        n <= one.len(),
    ensures
        sets_of_three(one, n) == sets_of_three(other, n),
    decreases n,
{
    if n > 0 {
        lemma_same_sets(one, other, (n - 1) as nat);
        let i = n - 1;
        assert(one[i].from@ == other[i].from@ && one[i].to@ == other[i].to@);
        assert forall|c: Seq<char>| thirds(one, i).contains(c) == thirds(other, i).contains(c) by {
            let a = one[i].from@;
            let b = one[i].to@;
            let end = one.len() as int;
            if linked_in(one, i + 1, end, a, c) {
                lemma_same_linked(one, other, i + 1, end, a, c);
            }
            if linked_in(one, i + 1, end, b, c) {
                lemma_same_linked(one, other, i + 1, end, b, c);
            }
            assert forall|j: int| 0 <= j < other.len() implies (#[trigger] other[j]).from@
                == one[j].from@ && other[j].to@ == one[j].to@ by {
                assert(one[j].from@ == other[j].from@);
            }
            if linked_in(other, i + 1, end, a, c) {
                lemma_same_linked(other, one, i + 1, end, a, c);
            }
            if linked_in(other, i + 1, end, b, c) {
                lemma_same_linked(other, one, i + 1, end, b, c);
            }
        }
        assert(thirds(one, i) =~= thirds(other, i));
    }
}

/// The count grows with the connections that are looked at.
proof fn lemma_sets_grow(connections: Seq<Connection>, n: nat, more: nat)
    requires
        n <= more,
    ensures
        sets_of_three(connections, n) <= sets_of_three(connections, more),
    decreases more,
{
    if n < more {
        lemma_sets_grow(connections, n, (more - 1) as nat);
    }
}

/// How many sets of three computers that are connected with each other
/// hold a computer whose name starts with a t, each set counted at the
/// first of its connections; nothing where a line holds no hyphen or the
/// number does not fit.
pub fn count_interconnected_computers_with_a_t(input: &str) -> (result: Option<usize>)
    ensures
        result is Some <==> exists|connections: Seq<Connection>| #[trigger]
            written(lines_of(input@), connections) && sets_of_three(connections, connections.len())
                <= usize::MAX,
        result matches Some(count) ==> exists|connections: Seq<Connection>| #[trigger]
            written(lines_of(input@), connections) && count == sets_of_three(
                connections,
                connections.len(),
            ),
{
    let ghost all = lines_of(input@);
    let sets = match parse_as_connections(input) {
        None => {
            proof {
                assert forall|others: Seq<Connection>| !#[trigger] written(all, others) by {
                    if written(all, others) {
                        assert forall|i: int| 0 <= i < all.len() implies is_connection(
                            #[trigger] all[i],
                        ) by {
                            assert(others[i].from@ == split_on(all[i], '-')[0]);
                        }
                    }
                }
            }
            return None;
        },
        Some(sets) => sets,
    };
    proof {
        assert forall|others: Seq<Connection>| #[trigger] written(all, others) implies sets_of_three(
            others,
            others.len(),
        ) == sets_of_three(sets@, sets@.len()) by {
            lemma_written_once(all, others, sets@);
            lemma_same_sets(others, sets@, sets@.len());
        }
    }
    let mut count: usize = 0;
    let mut i: usize = 0;
    while i < sets.len()
        invariant
            i <= sets.len(),
            all == lines_of(input@),
            written(all, sets@),
            forall|others: Seq<Connection>| #[trigger]
                written(all, others) ==> sets_of_three(others, others.len()) == sets_of_three(
                    sets@,
                    sets@.len(),
                ),
            count == sets_of_three(sets@, i as nat),
        decreases sets.len() - i,
    {
        let connected_to_a = connected_from(&sets, i + 1, &sets[i].from);
        let connected_to_b = connected_from(&sets, i + 1, &sets[i].to);
        let more = count_common(&sets[i].from, &sets[i].to, &connected_to_a, &connected_to_b);
        proof {
            assert(thirds(sets@, i as int) =~= Set::new(
                |c: Seq<char>|
                    views(connected_to_a@).contains(c) && views(connected_to_b@).contains(c) && (
                    starts_with_t(sets[i as int].from@) || starts_with_t(sets[i as int].to@)
                        || starts_with_t(c)),
            ));
            lemma_sets_grow(sets@, (i + 1) as nat, sets@.len());
        }
        count = match count.checked_add(more) {
            None => {
                return None;
            },
            Some(sum) => sum,
        };
        i += 1;
    }
    Some(count)
}

/// Whether a connection joins the two computers.
pub open spec fn connected(connections: Seq<Connection>, a: Seq<char>, b: Seq<char>) -> bool {
    linked_in(connections, 0, connections.len() as int, a, b)
}

/// Whether the names stand in the order of a dictionary, none twice.
pub open spec fn ascending(names: Seq<Seq<char>>) -> bool {
    forall|i: int, j: int|
        0 <= i < j < names.len() ==> comes_first(#[trigger] names[i], #[trigger] names[j])
}

/// Whether each two of the computers are connected.
pub open spec fn all_connected(connections: Seq<Connection>, names: Seq<Seq<char>>) -> bool {
    forall|i: int, j: int|
        0 <= i < j < names.len() ==> connected(connections, #[trigger] names[i], #[trigger] names[j])
}

/// Whether the names are those of a party: computers that are all
/// connected with each other, in the order of a dictionary.
pub open spec fn is_party(connections: Seq<Connection>, names: Seq<Seq<char>>) -> bool {
    ascending(names) && all_connected(connections, names)
}

/// The names of each network.
pub open spec fn deep(networks: Seq<Vec<Vec<char>>>) -> Seq<Seq<Seq<char>>> {
    Seq::new(networks.len(), |i: int| views(networks[i]@))
}

/// Whether the networks are the parties of `size` computers, each once.
pub open spec fn is_level(
    connections: Seq<Connection>,
    networks: Seq<Seq<Seq<char>>>,
    size: nat,
) -> bool {
    &&& forall|i: int|
        0 <= i < networks.len() ==> is_party(connections, #[trigger] networks[i]) && networks[i].len()
            == size
    &&& networks.no_duplicates()
    &&& forall|names: Seq<Seq<char>>| #[trigger]
        is_party(connections, names) && names.len() == size ==> networks.contains(names)
}

/// Whether there are two parties or more of `size` computers.
pub open spec fn crowded(connections: Seq<Connection>, size: nat) -> bool {
    exists|one: Seq<Seq<char>>, other: Seq<Seq<char>>|
        #![trigger is_party(connections, one), is_party(connections, other)]
        is_party(connections, one) && is_party(connections, other) && one.len() == size
            && other.len() == size && one != other
}

/// Whether no computer is connected with itself.
pub open spec fn no_loops(connections: Seq<Connection>) -> bool {
    forall|j: int| 0 <= j < connections.len() ==> (#[trigger] connections[j]).from@ != connections[j].to@
}

/// The names with a comma between each two.
pub open spec fn with_commas(names: Seq<Seq<char>>) -> Seq<char>
    decreases names.len(),
{
    if names.len() == 0 {
        Seq::empty()
    } else if names.len() == 1 {
        names[0]
    } else {
        with_commas(names.drop_last()) + seq![','] + names.last()
    }
}

/// Whether the names are the only party of `size` computers.
pub open spec fn is_only_party(
    connections: Seq<Connection>,
    names: Seq<Seq<char>>,
    size: nat,
) -> bool {
    &&& is_party(connections, names)
    &&& names.len() == size
    &&& forall|other: Seq<Seq<char>>| #[trigger]
        is_party(connections, other) && other.len() == size ==> other == names
}

/// Whether there are two parties or more of each number of computers from
/// two on and below `size`.
pub open spec fn crowded_below(connections: Seq<Connection>, size: nat) -> bool {
    forall|smaller: nat| 2 <= smaller < size ==> #[trigger] crowded(connections, smaller)
}

/// Whether two lists hold the same names.
fn same_names(a: &Vec<Vec<char>>, b: &Vec<Vec<char>>) -> (same: bool)
    ensures
        same == (views(a@) == views(b@)),
{
    if a.len() != b.len() {
        assert(views(a@).len() == a.len() && views(b@).len() == b.len());
        return false;
    }
    let mut i: usize = 0;
    while i < a.len()
        invariant
            i <= a.len(),
            a.len() == b.len(),
            forall|j: int| 0 <= j < i ==> views(a@)[j] == views(b@)[j],
        decreases a.len() - i,
    {
        assert(views(a@)[i as int] == a[i as int]@ && views(b@)[i as int] == b[i as int]@);
        if !same_chars(&a[i], &b[i]) {
            return false;
        }
        i += 1;
    }
    assert(views(a@) =~= views(b@));
    true
}

/// Whether the names are among the networks.
fn holds_network(networks: &Vec<Vec<Vec<char>>>, names: &Vec<Vec<char>>) -> (found: bool)
    ensures
        found == deep(networks@).contains(views(names@)),
{
    let mut i: usize = 0;
    while i < networks.len()
        invariant
            i <= networks.len(),
            forall|j: int| 0 <= j < i ==> deep(networks@)[j] != views(names@),
        decreases networks.len() - i,
    {
        if same_names(&networks[i], names) {
            assert(deep(networks@)[i as int] == views(names@));
            return true;
        }
        i += 1;
    }
    false
}

/// Whether a connection joins the two computers.
fn is_connected(connections: &Vec<Connection>, a: &Vec<char>, b: &Vec<char>) -> (found: bool)
    ensures
        found == connected(connections@, a@, b@),
{
    let mut j: usize = 0;
    while j < connections.len()
        invariant
            j <= connections.len(),
            forall|k: int| 0 <= k < j ==> !joins(connections@, k, a@, b@),
        decreases connections.len() - j,
    {
        if (same_chars(&connections[j].from, a) && same_chars(&connections[j].to, b)) || (
        same_chars(&connections[j].to, a) && same_chars(&connections[j].from, b)) {
            assert(joins(connections@, j as int, a@, b@));
            return true;
        }
        j += 1;
    }
    false
}

/// A copy of the names.
fn copy_names(names: &Vec<Vec<char>>) -> (copy: Vec<Vec<char>>)
    ensures
        views(copy@) == views(names@),
{
    let mut copy: Vec<Vec<char>> = Vec::new();
    let mut i: usize = 0;
    while i < names.len()
        invariant
            i <= names.len(),
            copy.len() == i,
            forall|j: int| 0 <= j < i ==> copy[j]@ == names[j]@,
        decreases names.len() - i,
    {
        let name = copy_range(&names[i], 0, names[i].len());
        assert(name@ =~= names[i as int]@);
        copy.push(name);
        i += 1;
    }
    assert(views(copy@) =~= views(names@));
    copy
}

/// The names with one more, which is not among them, at its place in the
/// order of a dictionary.
fn insert_sorted(names: &Vec<Vec<char>>, new_name: &Vec<char>) -> (result: Vec<Vec<char>>)
    requires
        ascending(views(names@)),
        !views(names@).contains(new_name@),
    ensures
        ascending(views(result@)),
        exists|at: int|
            0 <= at <= names.len() && #[trigger] views(names@).insert(at, new_name@) == views(
                result@,
            ),
        (forall|i: int| 0 <= i < names.len() ==> comes_first(views(names@)[i], new_name@))
            ==> views(result@) == views(names@).push(new_name@),
{
    let ghost all = views(names@);
    let mut at: usize = 0;
    while at < names.len() && is_before(&names[at], new_name)
        invariant
            at <= names.len(),
            all == views(names@),
            forall|i: int| 0 <= i < at ==> comes_first(all[i], new_name@),
        decreases names.len() - at,
    {
        assert(all[at as int] == names[at as int]@);
        at += 1;
    }
    let mut result = copy_names(names);
    let copy = copy_range(new_name, 0, new_name.len());
    assert(copy@ =~= new_name@);
    result.insert(at, copy);
    proof {
        assert(views(result@) =~= all.insert(at as int, new_name@));
        let grown = views(result@);
        if at < names.len() {
            assert(all[at as int] == names[at as int]@);
            assert(all.contains(all[at as int]));
            lemma_comes_first_total(all[at as int], new_name@);
            assert(comes_first(new_name@, all[at as int]));
        }
        assert forall|i: int, j: int| 0 <= i < j < grown.len() implies comes_first(
            #[trigger] grown[i],
            #[trigger] grown[j],
        ) by {
            if j < at {
                assert(grown[i] == all[i] && grown[j] == all[j]);
            } else if j == at {
                assert(grown[i] == all[i]);
            } else if i < at {
                assert(grown[i] == all[i] && grown[j] == all[j - 1]);
            } else if i == at {
                assert(grown[j] == all[j - 1]);
                if j - 1 > at {
                    lemma_comes_first_chain(new_name@, all[at as int], all[j - 1]);
                }
            } else {
                assert(grown[i] == all[i - 1] && grown[j] == all[j - 1]);
            }
        }
        if forall|i: int| 0 <= i < names.len() ==> comes_first(all[i], new_name@) {
            if at < names.len() {
                lemma_comes_first_one_way(all[at as int], new_name@);
            }
            assert(grown =~= all.push(new_name@));
        }
    }
    result
}

/// The names with a comma between each two.
fn join_names(names: &Vec<Vec<char>>) -> (key: Vec<char>)
    ensures
        key@ == with_commas(views(names@)),
{
    let ghost all = views(names@);
    let mut key: Vec<char> = Vec::new();
    let mut i: usize = 0;
    assert(all.take(0) =~= Seq::<Seq<char>>::empty());
    while i < names.len()
        invariant
            i <= names.len(),
            all == views(names@),
            key@ == with_commas(all.take(i as int)),
        decreases names.len() - i,
    {
        let ghost before = key@;
        if i > 0 {
            key.push(',');
        }
        let ghost start = key@;
        let name = &names[i];
        let mut n: usize = 0;
        while n < name.len()
            invariant
                n <= name.len(),
                key@ == start + name@.take(n as int),
            decreases name.len() - n,
        {
            key.push(name[n]);
            assert(name@.take(n + 1) =~= name@.take(n as int).push(name[n as int]));
            n += 1;
        }
        proof {
            assert(name@.take(n as int) == name@);
            assert(all[i as int] == name@);
            assert(all.take(i + 1).drop_last() =~= all.take(i as int));
            assert(all.take(i + 1).last() == name@);
            if i == 0 {
                assert(all.take(1)[0] == name@);
                assert(key@ =~= name@);
            } else {
                assert(start =~= before + seq![',']);
            }
        }
        i += 1;
    }
    assert(all.take(i as int) == all);
    key
}

/// What a list holds once it has grown by one item.
proof fn lemma_push_contains<T>(items: Seq<T>, item: T, wanted: T)
    ensures
        items.push(item).contains(wanted) <==> items.contains(wanted) || wanted == item,
{
    let grown = items.push(item);
    if grown.contains(wanted) {
        let i = choose|i: int| 0 <= i < grown.len() && grown[i] == wanted;
        if i < items.len() {
            assert(items[i] == wanted);
        }
    }
    if items.contains(wanted) {
        let i = choose|i: int| 0 <= i < items.len() && items[i] == wanted;
        assert(grown[i] == wanted);
    }
    if wanted == item {
        assert(grown[items.len() as int] == wanted);
    }
}

/// What the first items of a list hold once one more is counted.
proof fn lemma_take_contains<T>(items: Seq<T>, n: int, wanted: T)
    requires
        0 <= n < items.len(),
    ensures
        items.take(n + 1).contains(wanted) <==> items.take(n).contains(wanted) || wanted == items[n],
{
    assert(items.take(n + 1) =~= items.take(n).push(items[n]));
    lemma_push_contains(items.take(n), items[n], wanted);
}

/// A connection joins its computers either way.
proof fn lemma_connected_both_ways(connections: Seq<Connection>, a: Seq<char>, b: Seq<char>)
    requires
        connected(connections, a, b),
    ensures
        connected(connections, b, a),
{
    let j = choose|j: int|
        0 <= j < connections.len() && 0 <= j < connections.len() && #[trigger] joins(
            connections,
            j,
            a,
            b,
        );
    assert(joins(connections, j, b, a));
}

/// A party with one more computer that is connected with all of them, at
/// its place in the order, is a party.
proof fn lemma_party_grows(
    connections: Seq<Connection>,
    names: Seq<Seq<char>>,
    name: Seq<char>,
    at: int,
)
    requires
        is_party(connections, names),
        0 <= at <= names.len(),
        forall|i: int| 0 <= i < names.len() ==> connected(connections, #[trigger] names[i], name),
        ascending(names.insert(at, name)),
    ensures
        is_party(connections, names.insert(at, name)),
{
    let grown = names.insert(at, name);
    assert forall|i: int, j: int| 0 <= i < j < grown.len() implies connected(
        connections,
        #[trigger] grown[i],
        #[trigger] grown[j],
    ) by {
        if j < at {
            assert(grown[i] == names[i] && grown[j] == names[j]);
        } else if j == at {
            assert(grown[i] == names[i]);
        } else if i < at {
            assert(grown[i] == names[i] && grown[j] == names[j - 1]);
        } else if i == at {
            assert(grown[j] == names[j - 1]);
            lemma_connected_both_ways(connections, names[j - 1], name);
        } else {
            assert(grown[i] == names[i - 1] && grown[j] == names[j - 1]);
        }
    }
}

/// A party without its last computer is a party.
proof fn lemma_party_shrinks(connections: Seq<Connection>, names: Seq<Seq<char>>)
    requires
        is_party(connections, names),
        names.len() > 0,
    ensures
        is_party(connections, names.drop_last()),
{
    let fewer = names.drop_last();
    assert forall|i: int, j: int| 0 <= i < j < fewer.len() implies comes_first(
        #[trigger] fewer[i],
        #[trigger] fewer[j],
    ) && connected(connections, fewer[i], fewer[j]) by {
        assert(fewer[i] == names[i] && fewer[j] == names[j]);
    }
}

/// The two names in the order of a dictionary.
pub open spec fn in_order(a: Seq<char>, b: Seq<char>) -> Seq<Seq<char>> {
    if comes_first(a, b) {
        seq![a, b]
    } else {
        seq![b, a]
    }
}

/// The parties of two computers, each once; nothing where a computer is
/// connected with itself.
fn pairs_of(connections: &Vec<Connection>) -> (result: Option<Vec<Vec<Vec<char>>>>)
    ensures
        result is Some <==> no_loops(connections@),
        result matches Some(networks) ==> is_level(connections@, deep(networks@), 2),
{
    let mut networks: Vec<Vec<Vec<char>>> = Vec::new();
    let mut j: usize = 0;
    assert(deep(networks@) =~= Seq::<Seq<Seq<char>>>::empty());
    while j < connections.len()
        invariant
            j <= connections.len(),
            forall|t: int| 0 <= t < j ==> (#[trigger] connections[t]).from@ != connections[t].to@,
            forall|i: int|
                0 <= i < networks.len() ==> is_party(connections@, #[trigger] deep(networks@)[i])
                    && deep(networks@)[i].len() == 2,
            deep(networks@).no_duplicates(),
            forall|t: int|
                0 <= t < j ==> deep(networks@).contains(
                    in_order((#[trigger] connections[t]).from@, connections[t].to@),
                ),
        decreases connections.len() - j,
    {
        let from = &connections[j].from;
        let to = &connections[j].to;
        if same_chars(from, to) {
            return None;
        }
        let mut pair: Vec<Vec<char>> = Vec::new();
        let first = copy_range(from, 0, from.len());
        let second = copy_range(to, 0, to.len());
        assert(first@ =~= from@ && second@ =~= to@);
        if is_before(from, to) {
            pair.push(first);
            pair.push(second);
        } else {
            pair.push(second);
            pair.push(first);
        }
        let ghost names = views(pair@);
        let ghost before = deep(networks@);
        proof {
            assert(names =~= in_order(from@, to@));
            lemma_comes_first_total(from@, to@);
            assert(joins(connections@, j as int, from@, to@));
            assert(joins(connections@, j as int, to@, from@));
            assert(connected(connections@, names[0], names[1]));
            assert(is_party(connections@, names));
        }
        if !holds_network(&networks, &pair) {
            networks.push(pair);
            assert(deep(networks@) =~= before.push(names));
        }
        proof {
            let after = deep(networks@);
            assert forall|wanted: Seq<Seq<char>>| before.contains(wanted) implies after.contains(
                wanted,
            ) by {
                lemma_push_contains(before, names, wanted);
            }
            lemma_push_contains(before, names, names);
            assert forall|t: int| 0 <= t < j + 1 implies after.contains(
                in_order((#[trigger] connections[t]).from@, connections[t].to@),
            ) by {
                if t < j {
                    assert(before.contains(in_order(connections[t].from@, connections[t].to@)));
                }
            }
        }
        j += 1;
    }
    proof {
        let found = deep(networks@);
        assert forall|names: Seq<Seq<char>>| #[trigger]
            is_party(connections@, names) && names.len() == 2 implies found.contains(names) by {
            assert(connected(connections@, names[0], names[1]));
            let t = choose|t: int|
                0 <= t < connections.len() && 0 <= t < connections.len() && #[trigger] joins(
                    connections@,
                    t,
                    names[0],
                    names[1],
                );
            assert(comes_first(names[0], names[1]));
            lemma_comes_first_one_way(names[0], names[1]);
            assert(in_order(connections[t].from@, connections[t].to@) =~= names);
        }
    }
    Some(networks)
}

/// Whether the computer is connected with each of the computers.
pub open spec fn is_shared(connections: Seq<Connection>, names: Seq<Seq<char>>, c: Seq<char>) -> bool {
    forall|i: int| 0 <= i < names.len() ==> connected(connections, #[trigger] names[i], c)
}

/// The computers that are connected with each computer of the network.
fn shared_of(connections: &Vec<Connection>, network: &Vec<Vec<char>>) -> (shared: Vec<Vec<char>>)
    requires
        network.len() >= 1,
    ensures
        forall|c: Seq<char>|
            views(shared@).contains(c) <==> is_shared(connections@, views(network@), c),
{
    let ghost names = views(network@);
    let candidates = connected_from(connections, 0, &network[0]);
    let ghost offered = views(candidates@);
    let mut shared: Vec<Vec<char>> = Vec::new();
    let mut t: usize = 0;
    assert(views(shared@) =~= Seq::<Seq<char>>::empty());
    assert(names[0] == network[0]@);
    while t < candidates.len()
        invariant
            t <= candidates.len(),
            network.len() >= 1,
            names == views(network@),
            offered == views(candidates@),
            forall|c: Seq<char>| offered.contains(c) <==> connected(connections@, names[0], c),
            forall|c: Seq<char>|
                views(shared@).contains(c) <==> offered.take(t as int).contains(c) && is_shared(
                    connections@,
                    names,
                    c,
                ),
        decreases candidates.len() - t,
    {
        let candidate = &candidates[t];
        assert(offered[t as int] == candidate@);
        let mut all = true;
        let mut i: usize = 1;
        while i < network.len() && all
            invariant
                1 <= i <= network.len(),
                names == views(network@),
                all ==> forall|m: int| 1 <= m < i ==> connected(connections@, names[m], candidate@),
                !all ==> !is_shared(connections@, names, candidate@),
            decreases network.len() - i + if all {
                1int
            } else {
                0int
            },
        {
            assert(names[i as int] == network[i as int]@);
            if !is_connected(connections, &network[i], candidate) {
                all = false;
            } else {
                i += 1;
            }
        }
        let ghost before = views(shared@);
        if all {
            let copy = copy_range(candidate, 0, candidate.len());
            assert(copy@ =~= candidate@);
            shared.push(copy);
            assert(views(shared@) =~= before.push(candidate@));
            assert(is_shared(connections@, names, candidate@)) by {
                assert(offered.contains(candidate@));
            }
        }
        proof {
            assert forall|c: Seq<char>|
                views(shared@).contains(c) <==> offered.take(t + 1).contains(c) && is_shared(
                    connections@,
                    names,
                    c,
                ) by {
                lemma_take_contains(offered, t as int, c);
                lemma_push_contains(before, candidate@, c);
            }
        }
        t += 1;
    }
    proof {
        assert(offered.take(t as int) == offered);
        assert forall|c: Seq<char>| is_shared(connections@, names, c) implies offered.contains(c) by {
            assert(connected(connections@, names[0], c));
        }
    }
    shared
}

/// The parties of one computer more than those of the networks.
fn extend_level(
    connections: &Vec<Connection>,
    networks: &Vec<Vec<Vec<char>>>,
    Ghost(size): Ghost<nat>,
) -> (bigger: Vec<Vec<Vec<char>>>)
    requires
        no_loops(connections@),
        size >= 1,
        is_level(connections@, deep(networks@), size),
    ensures
        is_level(connections@, deep(bigger@), size + 1),
{
    let ghost level = deep(networks@);
    let mut bigger: Vec<Vec<Vec<char>>> = Vec::new();
    let mut i: usize = 0;
    assert(deep(bigger@) =~= Seq::<Seq<Seq<char>>>::empty());
    while i < networks.len()
        invariant
            i <= networks.len(),
            no_loops(connections@),
            size >= 1,
            level == deep(networks@),
            is_level(connections@, level, size),
            forall|n: int|
                0 <= n < bigger.len() ==> is_party(connections@, #[trigger] deep(bigger@)[n])
                    && deep(bigger@)[n].len() == size + 1,
            deep(bigger@).no_duplicates(),
            forall|names: Seq<Seq<char>>| #[trigger]
                is_party(connections@, names) && names.len() == size + 1 && level.take(
                    i as int,
                ).contains(names.drop_last()) ==> deep(bigger@).contains(names),
        decreases networks.len() - i,
    {
        let network = &networks[i];
        let ghost members = views(network@);
        assert(level[i as int] == members);
        assert(is_party(connections@, members) && members.len() == size);
        let shared = shared_of(connections, network);
        let ghost offered = views(shared@);
        let mut t: usize = 0;
        while t < shared.len()
            invariant
                t <= shared.len(),
                i < networks.len(),
                no_loops(connections@),
                size >= 1,
                level == deep(networks@),
                members == views(network@),
                offered == views(shared@),
                level[i as int] == members,
                is_party(connections@, members) && members.len() == size,
                forall|c: Seq<char>| offered.contains(c) <==> is_shared(connections@, members, c),
                forall|n: int|
                    0 <= n < bigger.len() ==> is_party(connections@, #[trigger] deep(bigger@)[n])
                        && deep(bigger@)[n].len() == size + 1,
                deep(bigger@).no_duplicates(),
                forall|names: Seq<Seq<char>>| #[trigger]
                    is_party(connections@, names) && names.len() == size + 1 && (level.take(
                        i as int,
                    ).contains(names.drop_last()) || (names.drop_last() == members && offered.take(
                        t as int,
                    ).contains(names.last()))) ==> deep(bigger@).contains(names),
            decreases shared.len() - t,
        {
            let new_computer = &shared[t];
            let ghost name = new_computer@;
            let ghost before = deep(bigger@);
            proof {
                assert(offered[t as int] == name);
                assert(offered.contains(name));
                assert(is_shared(connections@, members, name));
                if members.contains(name) {
                    let m = choose|m: int| 0 <= m < members.len() && members[m] == name;
                    assert(connected(connections@, members[m], name));
                    let j = choose|j: int|
                        0 <= j < connections.len() && 0 <= j < connections.len() && #[trigger] joins(
                            connections@,
                            j,
                            name,
                            name,
                        );
                    assert(connections[j].from@ == connections[j].to@);
                }
            }
            let new_network = insert_sorted(network, new_computer);
            let ghost grown = views(new_network@);
            proof {
                let at = choose|at: int|
                    0 <= at <= members.len() && #[trigger] members.insert(at, name) == grown;
                lemma_party_grows(connections@, members, name, at);
            }
            if !holds_network(&bigger, &new_network) {
                bigger.push(new_network);
                assert(deep(bigger@) =~= before.push(grown));
            }
            proof {
                let after = deep(bigger@);
                lemma_push_contains(before, grown, grown);
                assert forall|wanted: Seq<Seq<char>>| before.contains(wanted) implies after.contains(
                    wanted,
                ) by {
                    lemma_push_contains(before, grown, wanted);
                }
                assert forall|names: Seq<Seq<char>>| #[trigger]
                    is_party(connections@, names) && names.len() == size + 1 && (level.take(
                        i as int,
                    ).contains(names.drop_last()) || (names.drop_last() == members && offered.take(
                        t + 1,
                    ).contains(names.last()))) implies after.contains(names) by {
                    lemma_take_contains(offered, t as int, names.last());
                    if names.drop_last() == members && names.last() == name
                        && !offered.take(t as int).contains(names.last()) {
                        assert forall|m: int| 0 <= m < members.len() implies comes_first(
                            members[m],
                            name,
                        ) by {
                            assert(members[m] == names[m]);
                            assert(name == names[names.len() - 1]);
                        }
                        assert(names =~= members.push(name));
                        assert(grown == names);
                    } else {
                        assert(before.contains(names));
                    }
                }
            }
            t += 1;
        }
        proof {
            assert(offered.take(t as int) == offered);
            assert forall|names: Seq<Seq<char>>| #[trigger]
                is_party(connections@, names) && names.len() == size + 1 && level.take(
                    i + 1,
                ).contains(names.drop_last()) implies deep(bigger@).contains(names) by {
                lemma_take_contains(level, i as int, names.drop_last());
                if names.drop_last() == members {
                    assert forall|m: int| 0 <= m < members.len() implies connected(
                        connections@,
                        #[trigger] members[m],
                        names.last(),
                    ) by {
                        assert(members[m] == names[m]);
                        assert(names.last() == names[names.len() - 1]);
                    }
                    assert(offered.contains(names.last()));
                }
            }
        }
        i += 1;
    }
    proof {
        assert(level.take(i as int) == level);
        assert forall|names: Seq<Seq<char>>| #[trigger]
            is_party(connections@, names) && names.len() == size + 1 implies deep(bigger@).contains(
            names,
        ) by {
            lemma_party_shrinks(connections@, names);
            assert(level.contains(names.drop_last()));
        }
    }
    bigger
}

/// Whether the names are those of the largest party: the only party of
/// its number of computers, which is two or more and no more than two more
/// than there are connections, while there are two parties or more of each
/// smaller number from two on.
pub open spec fn is_largest(connections: Seq<Connection>, names: Seq<Seq<char>>, size: nat) -> bool {
    &&& 2 <= size <= connections.len() + 2
    &&& is_only_party(connections, names, size)
    &&& crowded_below(connections, size)
}

/// Whether the connections have a largest party: no computer is connected
/// with itself, and some names are those of the largest party.
pub open spec fn has_largest(connections: Seq<Connection>) -> bool {
    no_loops(connections) && exists|size: nat, names: Seq<Seq<char>>| #[trigger]
        is_largest(connections, names, size)
}

/// Where there are two parties of a number of computers, none is the only
/// one.
proof fn lemma_crowded_has_no_only(connections: Seq<Connection>, names: Seq<Seq<char>>, size: nat)
    requires
        crowded(connections, size),
    ensures
        !is_only_party(connections, names, size),
{
    let (one, other) = choose|one: Seq<Seq<char>>, other: Seq<Seq<char>>|
        #![trigger is_party(connections, one), is_party(connections, other)]
        is_party(connections, one) && is_party(connections, other) && one.len() == size
            && other.len() == size && one != other;
    if is_only_party(connections, names, size) {
        assert(is_party(connections, one) && one.len() == size);
        assert(is_party(connections, other) && other.len() == size);
    }
}

/// The same connections have the same parties.
proof fn lemma_same_party(one: Seq<Connection>, other: Seq<Connection>, names: Seq<Seq<char>>)
    requires
        same_links(one, other),
        is_party(one, names),
    ensures
        is_party(other, names),
{
    assert forall|i: int, j: int| 0 <= i < j < names.len() implies connected(
        other,
        #[trigger] names[i],
        #[trigger] names[j],
    ) by {
        assert(connected(one, names[i], names[j]));
        lemma_same_linked(one, other, 0, one.len() as int, names[i], names[j]);
    }
}

/// The same connections the other way round.
proof fn lemma_same_links_back(one: Seq<Connection>, other: Seq<Connection>)
    requires
        same_links(one, other),
    ensures
        same_links(other, one),
{
    assert forall|j: int| 0 <= j < other.len() implies (#[trigger] other[j]).from@ == one[j].from@
        && other[j].to@ == one[j].to@ by {
        assert(one[j].from@ == other[j].from@);
    }
}

/// The same connections have the same largest party.
pub proof fn lemma_same_largest(one: Seq<Connection>, other: Seq<Connection>)
    requires
        same_links(one, other),
        has_largest(one),
    ensures
        has_largest(other),
{
    lemma_same_links_back(one, other);
    let (size, names) = choose|size: nat, names: Seq<Seq<char>>| #[trigger]
        is_largest(one, names, size);
    assert forall|j: int| 0 <= j < other.len() implies (#[trigger] other[j]).from@ != other[j].to@ by {
        assert(one[j].from@ != one[j].to@);
    }
    lemma_same_party(one, other, names);
    assert forall|more: Seq<Seq<char>>| #[trigger]
        is_party(other, more) && more.len() == size implies more == names by {
        lemma_same_party(other, one, more);
    }
    assert forall|smaller: nat| 2 <= smaller < size implies #[trigger] crowded(other, smaller) by {
        assert(crowded(one, smaller));
        let (a, b) = choose|a: Seq<Seq<char>>, b: Seq<Seq<char>>|
            #![trigger is_party(one, a), is_party(one, b)]
            is_party(one, a) && is_party(one, b) && a.len() == smaller && b.len() == smaller && a != b;
        lemma_same_party(one, other, a);
        lemma_same_party(one, other, b);
    }
    assert(is_largest(other, names, size));
}

/// The names, with commas between them, of the largest party: the only
/// party of the smallest number of computers, two or more, of which there
/// are not two parties or more. Nothing where a computer is connected with
/// itself, or where there is no such party among those of no more than two
/// computers more than there are connections.
pub fn largest_party(connections: &Vec<Connection>) -> (result: Option<Vec<char>>)
    ensures
        result is Some <==> has_largest(connections@),
        result matches Some(key) ==> exists|size: nat, names: Seq<Seq<char>>| #[trigger]
            is_largest(connections@, names, size) && key@ == with_commas(names),
{
    let mut networks = match pairs_of(connections) {
        None => {
            return None;
        },
        Some(networks) => networks,
    };
    let mut rounds: usize = 0;
    let ghost mut size: nat = 2;
    while networks.len() > 1
        invariant
            no_loops(connections@),
            size == rounds + 2,
            rounds <= connections.len(),
            is_level(connections@, deep(networks@), size),
            crowded_below(connections@, size),
        decreases connections.len() - rounds,
    {
        proof {
            let level = deep(networks@);
            assert(is_party(connections@, level[0]) && is_party(connections@, level[1]));
            assert(level[0] != level[1]);
            assert(crowded(connections@, size));
            assert(crowded_below(connections@, size + 1));
        }
        if rounds == connections.len() {
            proof {
                assert forall|other_size: nat, names: Seq<Seq<char>>| !#[trigger] is_largest(
                    connections@,
                    names,
                    other_size,
                ) by {
                    if 2 <= other_size <= connections.len() + 2 {
                        assert(crowded(connections@, other_size));
                        lemma_crowded_has_no_only(connections@, names, other_size);
                    }
                }
            }
            return None;
        }
        networks = extend_level(connections, &networks, Ghost(size));
        rounds += 1;
        proof {
            size = size + 1;
        }
    }
    if networks.len() == 1 {
        let key = join_names(&networks[0]);
        proof {
            let level = deep(networks@);
            let names = level[0];
            assert(names == views(networks[0]@));
            assert forall|other: Seq<Seq<char>>| #[trigger]
                is_party(connections@, other) && other.len() == size implies other == names by {
                assert(level.contains(other));
            }
            assert(is_only_party(connections@, names, size));
            assert(is_largest(connections@, names, size));
        }
        Some(key)
    } else {
        proof {
            let level = deep(networks@);
            assert(level =~= Seq::<Seq<Seq<char>>>::empty());
            assert forall|other_size: nat, names: Seq<Seq<char>>| !#[trigger] is_largest(
                connections@,
                names,
                other_size,
            ) by {
                if is_largest(connections@, names, other_size) {
                    if other_size < size {
                        assert(crowded(connections@, other_size));
                        lemma_crowded_has_no_only(connections@, names, other_size);
                    } else if other_size > size {
                        assert(crowded(connections@, size));
                        let (a, b) = choose|a: Seq<Seq<char>>, b: Seq<Seq<char>>|
                            #![trigger is_party(connections@, a), is_party(connections@, b)]
                            is_party(connections@, a) && is_party(connections@, b) && a.len() == size
                                && b.len() == size && a != b;
                        assert(level.contains(a));
                    } else {
                        assert(level.contains(names));
                    }
                }
            }
        }
        None
    }
}

/// The names of the largest party of the computers whose connections the
/// text writes; nothing where a line holds no hyphen, or where the
/// connections have no largest party.
pub fn find_largest_lan_party(input: &str) -> (result: Option<Vec<char>>)
    ensures
        result is Some <==> exists|connections: Seq<Connection>| #[trigger]
            written(lines_of(input@), connections) && has_largest(connections),
        result matches Some(key) ==> exists|connections: Seq<Connection>, size: nat, names: Seq<
            Seq<char>,
        >|
            #![trigger written(lines_of(input@), connections), is_largest(connections, names, size)]
            written(lines_of(input@), connections) && is_largest(connections, names, size) && key@
                == with_commas(names),
{
    let ghost all = lines_of(input@);
    match parse_as_connections(input) {
        None => {
            proof {
                assert forall|others: Seq<Connection>| !#[trigger] written(all, others) by {
                    if written(all, others) {
                        assert forall|i: int| 0 <= i < all.len() implies is_connection(
                            #[trigger] all[i],
                        ) by {
                            assert(others[i].from@ == split_on(all[i], '-')[0]);
                        }
                    }
                }
            }
            None
        },
        Some(connections) => {
            proof {
                assert forall|others: Seq<Connection>| #[trigger]
                    written(all, others) && has_largest(others) implies has_largest(
                    connections@,
                ) by {
                    lemma_written_once(all, others, connections@);
                    lemma_same_largest(others, connections@);
                }
            }
            let result = largest_party(&connections);
            proof {
                if result is Some {
                    let (size, names) = choose|size: nat, names: Seq<Seq<char>>| #[trigger]
                        is_largest(connections@, names, size) && result->Some_0@ == with_commas(names);
                    assert(written(all, connections@) && is_largest(connections@, names, size));
                }
            }
            result
        },
    }
}

/// The number of sets of three with a t, and the names of the largest
/// party; nothing where a line holds no hyphen, where the number does not
/// fit, or where the connections have no largest party.
pub fn solve(input: &str) -> (result: Option<(usize, Vec<char>)>)
    ensures
        result is Some <==> exists|connections: Seq<Connection>| #[trigger]
            written(lines_of(input@), connections) && sets_of_three(connections, connections.len())
                <= usize::MAX && has_largest(connections),
        result matches Some(found) ==> {
            &&& exists|connections: Seq<Connection>| #[trigger]
                written(lines_of(input@), connections) && found.0 == sets_of_three(
                    connections,
                    connections.len(),
                )
            &&& exists|connections: Seq<Connection>, size: nat, names: Seq<Seq<char>>|
                #![trigger written(lines_of(input@), connections), is_largest(connections, names, size)]
                written(lines_of(input@), connections) && is_largest(connections, names, size)
                    && found.1@ == with_commas(names)
        },
{
    let ghost all = lines_of(input@);
    let part1 = match count_interconnected_computers_with_a_t(input) {
        None => {
            return None;
        },
        Some(count) => count,
    };
    let part2 = match find_largest_lan_party(input) {
        None => {
            return None;
        },
        Some(key) => key,
    };
    proof {
        let counted = choose|connections: Seq<Connection>| #[trigger]
            written(all, connections) && sets_of_three(connections, connections.len()) <= usize::MAX;
        let linked = choose|connections: Seq<Connection>| #[trigger]
            written(all, connections) && has_largest(connections);
        lemma_written_once(all, linked, counted);
        lemma_same_largest(linked, counted);
        assert(written(all, counted) && sets_of_three(counted, counted.len()) <= usize::MAX
            && has_largest(counted));
    }
    let result = Some((part1, part2));
    proof {
        let key = result->Some_0.1;
        let (connections, size, names) = choose|
            connections: Seq<Connection>,
            size: nat,
            names: Seq<Seq<char>>,
        |
            #![trigger written(all, connections), is_largest(connections, names, size)]
            written(all, connections) && is_largest(connections, names, size) && key@
                == with_commas(names);
        assert(written(all, connections) && is_largest(connections, names, size));
    }
    result
}

} // verus!
