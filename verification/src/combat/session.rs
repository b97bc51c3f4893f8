//! A combat session: the characters taking part, their initiative order, and whose
//! turn it is. A session is first set up, then its combat starts.

use super::initiative::{
    entries_view, is_turn_order_of, lemma_turn_order_unique, tier, EntryView, InitiativeEntry, TurnOrder,
};
use super::roster::{has_name, names_of, Roster};
use crate::model::character::CharacterSheet;
use crate::text::{lemma_nat_digits_injective, nat_digits, u128_to_decimal};
use vstd::prelude::*;
use vstd::set_lib::lemma_len_subset;

verus! {

broadcast use {vstd::seq_lib::group_seq_properties, vstd::set::group_set_axioms};

/// The phase in which characters are loaded and initiatives may be set.
pub struct Setup;

/// The phase in which turns are taken. Only starting a combat makes one.
pub struct InCombat {
    _started: (),
}

/// The characters of a combat, their initiative order, and the position in that order
/// of the one whose turn it is.
pub struct Session<C: CharacterSheet, Phase = Setup> {
    pub characters: Roster<C>,
    pub turn_order: Option<TurnOrder>,
    pub current_turn: usize,
    /// The phase; a session in combat comes only from starting one.
    pub phase: Phase,
}

/// The entries of an optional turn order; none when there is no order.
pub open spec fn order_view(o: Option<TurnOrder>) -> Seq<EntryView> {
    match o {
        Some(t) => t@,
        None => Seq::empty(),
    }
}

/// `name`, an underscore, and `i` in decimal.
pub open spec fn numbered_name(name: Seq<char>, i: nat) -> Seq<char> {
    name + seq!['_'] + nat_digits(i)
}

/// The names in a sequence of entries, in order.
pub open spec fn names_in_order(s: Seq<EntryView>) -> Seq<Seq<char>> {
    s.map_values(|e: EntryView| e.0)
}

/// Some entry goes by `name`.
pub open spec fn in_order(s: Seq<EntryView>, name: Seq<char>) -> bool {
    names_in_order(s).contains(name)
}

/// `i` is the first position of `s` that goes by `name`.
pub open spec fn first_entry_named(s: Seq<EntryView>, name: Seq<char>, i: int) -> bool {
    &&& 0 <= i < s.len()
    &&& s[i].0 == name
    &&& forall|j: int| 0 <= j < i ==> s[j].0 != name
}

/// The entries with `name`'s initiative set to `value`: the first entry that goes by
/// `name` gets it, or a new entry is added at the end when none does.
pub open spec fn with_initiative(s: Seq<EntryView>, name: Seq<char>, value: i32) -> Seq<EntryView> {
    if in_order(s, name) {
        s.update(choose|i: int| first_entry_named(s, name, i), (name, value))
    } else {
        s.push((name, value))
    }
}

/// The names of the roster that have no entry in `order`, in roster order.
pub open spec fn unordered_names<C>(roster: Seq<(Seq<char>, C)>, order: Seq<EntryView>) -> Seq<Seq<char>> {
    names_of(roster).filter(not_in_order(order))
}

/// Whether no entry of `order` goes by a name.
pub open spec fn not_in_order(order: Seq<EntryView>) -> spec_fn(Seq<char>) -> bool {
    |n: Seq<char>| !in_order(order, n)
}

/// New entries: `names[j]` with initiative `rolls[j]`.
pub open spec fn rolled_entries(names: Seq<Seq<char>>, rolls: Seq<i32>) -> Seq<EntryView> {
    Seq::new(names.len(), |j: int| (names[j], rolls[j]))
}

/// The turn order that starting a combat leaves, given the initiatives rolled for the
/// characters that had none: the entries already set up, then the new ones, ordered.
pub open spec fn started_order<C>(
    roster: Seq<(Seq<char>, C)>,
    order: Seq<EntryView>,
    rolls: Seq<i32>,
) -> Seq<EntryView> {
    order + rolled_entries(unordered_names(roster, order), rolls)
}

/// `after` is `before` with `name`'s initiative set to `value` and the turn order
/// ordered again.
pub open spec fn is_initiative_set<C: CharacterSheet, P>(
    before: Session<C, P>,
    after: Session<C, P>,
    name: Seq<char>,
    value: i32,
) -> bool {
    &&& after.characters == before.characters
    &&& after.current_turn == before.current_turn
    &&& after.turn_order matches Some(o) && is_turn_order_of(
        o@,
        with_initiative(order_view(before.turn_order), name, value),
    )
}

/// `after` is `before` with the turn passed to the next entry, back to the first after
/// the last, and `turn` names whose turn it is now; without entries nothing changes.
pub open spec fn is_next_turn<C: CharacterSheet, P>(
    before: Session<C, P>,
    after: Session<C, P>,
    turn: Option<Seq<char>>,
) -> bool {
    let order = order_view(before.turn_order);
    &&& after.characters == before.characters
    &&& after.turn_order == before.turn_order
    &&& if order.len() == 0 {
        turn is None && after.current_turn == before.current_turn
    } else {
        &&& after.current_turn == (before.current_turn + 1) % (order.len() as int)
        &&& turn == Some(order[after.current_turn as int].0)
    }
}

/// `rolls[j]` is what `initiative` returned for a character of `roster` that goes by
/// `names[j]`.
pub open spec fn rolled_at<C: CharacterSheet>(
    roster: Seq<(Seq<char>, C)>,
    names: Seq<Seq<char>>,
    rolls: Seq<i32>,
    j: int,
) -> bool {
    exists|i: int|
        0 <= i < roster.len() && #[trigger] names_of(roster)[i] == names[j] && call_ensures(
            C::initiative,
            (&roster[i].1,),
            rolls[j],
        )
}

/// `rolls` are the initiatives of the characters of `roster` that have no entry in
/// `order`, in roster order: the `j`-th is what `initiative` returned for the character
/// that goes by the `j`-th such name.
pub open spec fn rolled_for<C: CharacterSheet>(
    roster: Seq<(Seq<char>, C)>,
    order: Seq<EntryView>,
    rolls: Seq<i32>,
) -> bool {
    let un = unordered_names(roster, order);
    &&& rolls.len() == un.len()
    &&& forall|j: int| 0 <= j < rolls.len() ==> #[trigger] rolled_at(roster, un, rolls, j)
}

/// `after` is the combat that `before` starts when the characters without an entry
/// roll `rolls`.
pub open spec fn is_start_with<C: CharacterSheet>(
    before: Session<C, Setup>,
    after: Session<C, InCombat>,
    rolls: Seq<i32>,
) -> bool {
    &&& rolls.len() == unordered_names(before.characters@, order_view(before.turn_order)).len()
    &&& after.characters == before.characters
    &&& after.current_turn == 0
    &&& after.turn_order matches Some(o) && is_turn_order_of(
        o@,
        started_order(before.characters@, order_view(before.turn_order), rolls),
    )
}

/// `r` is the name that a character called `name` gets in `roster`: `name` itself when
/// no character has it, otherwise `name_i` for the least `i` from 2 on that no
/// character has.
pub open spec fn is_unique_name<C>(roster: Seq<(Seq<char>, C)>, name: Seq<char>, r: Seq<char>) -> bool {
    &&& !has_name(roster, r)
    &&& !has_name(roster, name) ==> r == name
    &&& has_name(roster, name) ==> exists|i: nat|
        #![trigger numbered_name(name, i)]
        i >= 2 && r == numbered_name(name, i) && forall|j: nat|
            2 <= j < i ==> has_name(roster, #[trigger] numbered_name(name, j))
}

proof fn lemma_numbered_name_injective(name: Seq<char>, a: nat, b: nat)
    requires
        numbered_name(name, a) == numbered_name(name, b),
    ensures
        a == b,
{
    assert(numbered_name(name, a).skip(name.len() + 1int) =~= nat_digits(a));
    assert(numbered_name(name, b).skip(name.len() + 1int) =~= nat_digits(b));
    lemma_nat_digits_injective(a, b);
}

proof fn lemma_first_entry_unique(s: Seq<EntryView>, name: Seq<char>, i: int, j: int)
    requires
        first_entry_named(s, name, i),
        first_entry_named(s, name, j),
    ensures
        i == j,
{
}

/// The entries of a turn order are those of the list it orders.
pub proof fn lemma_turn_order_members(sorted: Seq<EntryView>, input: Seq<EntryView>, e: EntryView)
    requires
        is_turn_order_of(sorted, input),
    ensures
        sorted.contains(e) <==> input.contains(e),
{
    let p = super::initiative::has_initiative(e.1);
    assert(tier(sorted, e.1) == tier(input, e.1));
    if sorted.contains(e) {
        let i = choose|i: int| 0 <= i < sorted.len() && sorted[i] == e;
        sorted.lemma_filter_contains(p, i);
        input.lemma_filter_contains_rev(p, e);
    }
    if input.contains(e) {
        let i = choose|i: int| 0 <= i < input.len() && input[i] == e;
        input.lemma_filter_contains(p, i);
        sorted.lemma_filter_contains_rev(p, e);
    }
}

/// The position of the first entry named `name`, if there is one.
fn find_entry(entries: &Vec<InitiativeEntry>, name: &String) -> (r: Option<usize>)
    ensures
        match r {
            Some(i) => first_entry_named(entries_view(entries@), name@, i as int),
            None => !in_order(entries_view(entries@), name@),
        },
{
    let ghost v = entries_view(entries@);
    let mut i: usize = 0;
    while i < entries.len()
        invariant
            i <= entries@.len(),
            v == entries_view(entries@),
            forall|j: int| 0 <= j < i ==> v[j].0 != name@,
        decreases entries@.len() - i,
    {
        if entries[i].name == *name {
            return Some(i);
        }
        i = i + 1;
    }
    assert forall|j: int| 0 <= j < names_in_order(v).len() implies names_in_order(v)[j] != name@ by {
        assert(v[j].0 != name@);
    }
    None
}

/// Whether one of the first `upto` entries goes by `name`.
fn named_within(entries: &Vec<InitiativeEntry>, upto: usize, name: &String) -> (b: bool)
    requires
        upto <= entries@.len(),
    ensures
        b == in_order(entries_view(entries@).take(upto as int), name@),
{
    let ghost v = entries_view(entries@).take(upto as int);
    let mut i: usize = 0;
    while i < upto
        invariant
            i <= upto <= entries@.len(),
            v == entries_view(entries@).take(upto as int),
            forall|j: int| 0 <= j < i ==> v[j].0 != name@,
        decreases upto - i,
    {
        if entries[i].name == *name {
            assert(names_in_order(v)[i as int] == name@);
            return true;
        }
        i = i + 1;
    }
    assert forall|j: int| 0 <= j < names_in_order(v).len() implies names_in_order(v)[j] != name@ by {
        assert(v[j].0 != name@);
    }
    false
}

/// Starting a combat leaves every character in the turn order, and keeps every entry
/// that was set up before, initiative and all.
pub proof fn lemma_started_order_covers<C>(
    roster: Seq<(Seq<char>, C)>,
    order: Seq<EntryView>,
    rolls: Seq<i32>,
    sorted: Seq<EntryView>,
)
    requires
        rolls.len() == unordered_names(roster, order).len(),
        is_turn_order_of(sorted, started_order(roster, order, rolls)),
    ensures
        forall|n: Seq<char>| names_of(roster).contains(n) ==> in_order(sorted, n),
        forall|e: EntryView| order.contains(e) ==> sorted.contains(e),
{
    let input = started_order(roster, order, rolls);
    let un = unordered_names(roster, order);
    assert forall|e: EntryView| order.contains(e) implies sorted.contains(e) by {
        let i = choose|i: int| 0 <= i < order.len() && order[i] == e;
        assert(input[i] == e);
        lemma_turn_order_members(sorted, input, e);
    }
    assert forall|n: Seq<char>| names_of(roster).contains(n) implies in_order(sorted, n) by {
        let e: EntryView = if in_order(order, n) {
            let i = choose|i: int| 0 <= i < names_in_order(order).len() && names_in_order(order)[i] == n;
            assert(input[i] == order[i]);
            order[i]
        } else {
            let i = choose|i: int| 0 <= i < names_of(roster).len() && names_of(roster)[i] == n;
            names_of(roster).lemma_filter_contains(not_in_order(order), i);
            let j = choose|j: int| 0 <= j < un.len() && un[j] == n;
            assert(input[order.len() + j] == (n, rolls[j]));
            (n, rolls[j])
        };
        assert(input.contains(e));
        lemma_turn_order_members(sorted, input, e);
        let k = choose|k: int| 0 <= k < sorted.len() && sorted[k] == e;
        assert(names_in_order(sorted)[k] == n);
    }
}

/// When some entry goes by `name`, one of them is the first.
pub proof fn lemma_first_entry_exists(s: Seq<EntryView>, name: Seq<char>)
    requires
        in_order(s, name),
    ensures
        exists|i: int| first_entry_named(s, name, i),
    decreases s.len(),
{
    let init = s.drop_last();
    if in_order(init, name) {
        lemma_first_entry_exists(init, name);
        let i = choose|i: int| first_entry_named(init, name, i);
        assert(s[i] == init[i]);
        assert forall|j: int| 0 <= j < i implies s[j].0 != name by {
            assert(s[j] == init[j]);
        }
        assert(first_entry_named(s, name, i));
    } else {
        let k = choose|k: int| 0 <= k < names_in_order(s).len() && names_in_order(s)[k] == name;
        if k < s.len() - 1 {
            assert(names_in_order(init)[k] == name);
        }
        assert forall|j: int| 0 <= j < s.len() - 1 implies s[j].0 != name by {
            if s[j].0 == name {
                assert(names_in_order(init)[j] == name);
            }
        }
        assert(first_entry_named(s, name, s.len() - 1));
    }
}

/// No two entries share a name.
pub open spec fn order_names_distinct(s: Seq<EntryView>) -> bool {
    names_in_order(s).no_duplicates()
}

/// Keeping some elements of a sequence without duplicates leaves none.
proof fn lemma_filter_no_duplicates<A>(s: Seq<A>, p: spec_fn(A) -> bool)
    requires
        s.no_duplicates(),
    ensures
        s.filter(p).no_duplicates(),
    decreases s.len(),
{
    if s.len() > 0 {
        let init = s.drop_last();
        assert(s =~= init.push(s.last()));
        lemma_filter_no_duplicates(init, p);
        init.lemma_filter_push(s.last(), p);
        if p(s.last()) && init.filter(p).contains(s.last()) {
            init.lemma_filter_contains_rev(p, s.last());
        }
    }
}

/// A turn order names each combatant as often as the list it orders: when no two entries
/// of the list share a name, no two entries of the order do.
pub proof fn lemma_turn_order_names_distinct(sorted: Seq<EntryView>, input: Seq<EntryView>)
    requires
        is_turn_order_of(sorted, input),
        order_names_distinct(input),
    ensures
        order_names_distinct(sorted),
{
    broadcast use vstd::seq_lib::to_multiset_contains;

    assert(input.no_duplicates()) by {
        assert forall|i: int, j: int|
            0 <= i < input.len() && 0 <= j < input.len() && i != j implies input[i] != input[j] by {
            assert(names_in_order(input)[i] == input[i].0);
            assert(names_in_order(input)[j] == input[j].0);
        }
    }
    input.lemma_multiset_has_no_duplicates();
    sorted.lemma_multiset_has_no_duplicates_conv();
    assert forall|i: int, j: int|
        0 <= i < sorted.len() && 0 <= j < sorted.len() && i != j implies names_in_order(sorted)[i]
        != names_in_order(sorted)[j] by {
        if sorted[i].0 == sorted[j].0 {
            assert(sorted[i] != sorted[j]);
            assert(sorted.to_multiset().count(sorted[i]) > 0);
            assert(sorted.to_multiset().count(sorted[j]) > 0);
            let p = choose|p: int| 0 <= p < input.len() && input[p] == sorted[i];
            let q = choose|q: int| 0 <= q < input.len() && input[q] == sorted[j];
            assert(names_in_order(input)[p] == names_in_order(input)[q]);
        }
    }
}

/// Starting a combat gives no one a second entry: when the roster's names are distinct and
/// no two entries of the turn order share a name, no two entries of the started order do.
pub proof fn lemma_started_order_names_distinct<C>(
    roster: Seq<(Seq<char>, C)>,
    order: Seq<EntryView>,
    rolls: Seq<i32>,
    sorted: Seq<EntryView>,
)
    requires
        rolls.len() == unordered_names(roster, order).len(),
        is_turn_order_of(sorted, started_order(roster, order, rolls)),
        names_of(roster).no_duplicates(),
        order_names_distinct(order),
    ensures
        order_names_distinct(sorted),
{
    let un = unordered_names(roster, order);
    let input = started_order(roster, order, rolls);
    lemma_filter_no_duplicates(names_of(roster), not_in_order(order));
    assert forall|a: int, b: int| 0 <= a < names_in_order(order).len() && 0 <= b < un.len()
        implies names_in_order(order)[a] != un[b] by {
        names_of(roster).lemma_filter_pred(not_in_order(order), b);
    }
    vstd::seq_lib::lemma_no_dup_in_concat(names_in_order(order), un);
    assert(names_in_order(input) =~= names_in_order(order) + un);
    lemma_turn_order_names_distinct(sorted, input);
}

/// Setting an initiative gives no one a second entry: when no two entries of the turn
/// order share a name, no two entries of the order that it leaves do.
pub proof fn lemma_initiative_set_names_distinct(
    order: Seq<EntryView>,
    name: Seq<char>,
    value: i32,
    sorted: Seq<EntryView>,
)
    requires
        is_turn_order_of(sorted, with_initiative(order, name, value)),
        order_names_distinct(order),
    ensures
        order_names_distinct(sorted),
{
    let t = with_initiative(order, name, value);
    if in_order(order, name) {
        let i = choose|i: int| first_entry_named(order, name, i);
        let k = choose|k: int| 0 <= k < names_in_order(order).len() && names_in_order(order)[k] == name;
        assert(first_entry_named(order, name, k)) by {
            assert forall|j: int| 0 <= j < k implies order[j].0 != name by {
                assert(names_in_order(order)[j] == order[j].0);
            }
        }
        assert(names_in_order(t) =~= names_in_order(order));
    } else {
        assert(names_in_order(t) =~= names_in_order(order).push(name));
        assert forall|a: int, b: int|
            0 <= a < names_in_order(t).len() && 0 <= b < names_in_order(t).len() && a != b implies names_in_order(t)[a]
            != names_in_order(t)[b] by {
            if a == order.len() as int || b == order.len() as int {
                assert(!names_in_order(order).contains(name));
            }
        }
    }
    lemma_turn_order_names_distinct(sorted, t);
}

/// Setting an initiative that is already set changes nothing: setting `name`'s initiative
/// to `value` twice in a row leaves the same turn order as setting it once, when no two
/// entries of the turn order shared a name to begin with.
pub proof fn lemma_set_initiative_twice<C: CharacterSheet, P>(
    s0: Session<C, P>,
    s1: Session<C, P>,
    s2: Session<C, P>,
    name: Seq<char>,
    value: i32,
)
    requires
        order_names_distinct(order_view(s0.turn_order)),
        is_initiative_set(s0, s1, name, value),
        is_initiative_set(s1, s2, name, value),
    ensures
        s2.characters == s1.characters,
        s2.current_turn == s1.current_turn,
        order_view(s2.turn_order) == order_view(s1.turn_order),
{
    let o0 = order_view(s0.turn_order);
    let t1 = with_initiative(o0, name, value);
    let o1 = order_view(s1.turn_order);
    let o2 = order_view(s2.turn_order);
    lemma_initiative_set_names_distinct(o0, name, value, o1);
    if in_order(o0, name) {
        lemma_first_entry_exists(o0, name);
        let j = choose|j: int| first_entry_named(o0, name, j);
        assert(t1[j] == (name, value));
    } else {
        assert(t1[t1.len() - 1] == (name, value));
    }
    lemma_turn_order_members(o1, t1, (name, value));
    let m = choose|m: int| 0 <= m < o1.len() && o1[m] == (name, value);
    assert(names_in_order(o1)[m] == name);
    lemma_first_entry_exists(o1, name);
    let i = choose|i: int| first_entry_named(o1, name, i);
    assert(names_in_order(o1)[i] == name);
    assert(i == m);
    assert(with_initiative(o1, name, value) =~= o1);
    assert(is_turn_order_of(o1, o1));
    lemma_turn_order_unique(o2, o1, o1);
}

/// `sessions[k + 1]` is `sessions[k]` with the turn passed on, and `turns[k]` names
/// whose turn that made it.
pub open spec fn is_turn_sequence<C: CharacterSheet, P>(
    sessions: Seq<Session<C, P>>,
    turns: Seq<Option<Seq<char>>>,
) -> bool {
    &&& sessions.len() == turns.len() + 1
    &&& forall|k: int|
        0 <= k < turns.len() ==> is_next_turn(sessions[k], sessions[k + 1], #[trigger] turns[k])
}

/// Passing the turn once more extends a sequence of passes by that pass.
pub proof fn lemma_turn_sequence_push<C: CharacterSheet, P>(
    sessions: Seq<Session<C, P>>,
    turns: Seq<Option<Seq<char>>>,
    next: Session<C, P>,
    turn: Option<Seq<char>>,
)
    requires
        is_turn_sequence(sessions, turns),
        is_next_turn(sessions.last(), next, turn),
    ensures
        is_turn_sequence(sessions.push(next), turns.push(turn)),
        sessions.push(next)[0] == sessions[0],
{
    let s2 = sessions.push(next);
    let t2 = turns.push(turn);
    assert forall|k: int| 0 <= k < t2.len() implies is_next_turn(s2[k], s2[k + 1], #[trigger] t2[k]) by {
        if k < turns.len() {
            assert(turns[k] == t2[k]);
        }
    }
}

/// The position that `k` passes of the turn reach from position `c` in an order of `n`
/// entries.
pub open spec fn position_after(c: int, k: int, n: int) -> int {
    (c + k) % n
}

/// The positions that `1`, `2`, ..., `n` passes of the turn reach from position `c` in
/// an order of `n` entries, in that order.
pub open spec fn positions_reached(c: int, n: int) -> Seq<int> {
    Seq::new(n as nat, |k: int| position_after(c, k + 1, n))
}

/// Taking a position past the last one wraps it round once.
proof fn lemma_wrap_once(x: int, n: int)
    requires
        0 < n,
        0 <= x < 2 * n,
    ensures
        x % n == if x < n {
            x
        } else {
            x - n
        },
{
    if x < n {
        vstd::arithmetic::div_mod::lemma_small_mod(x as nat, n as nat);
    } else {
        vstd::arithmetic::div_mod::lemma_small_mod((x - n) as nat, n as nat);
        vstd::arithmetic::div_mod::lemma_mod_multiples_vanish(1, x - n, n);
    }
}

/// After `k` passes of the turn, at most one per entry, the turn stands `k` positions on,
/// the characters and the turn order are unchanged, and each pass named the entry it
/// reached.
pub proof fn lemma_turns_so_far<C: CharacterSheet, P>(
    sessions: Seq<Session<C, P>>,
    turns: Seq<Option<Seq<char>>>,
    k: int,
)
    requires
        is_turn_sequence(sessions, turns),
        sessions[0].current_turn < order_view(sessions[0].turn_order).len(),
        0 <= k <= turns.len(),
        k <= order_view(sessions[0].turn_order).len(),
    ensures
        ({
            let n = order_view(sessions[0].turn_order).len() as int;
            let c = sessions[0].current_turn as int;
            let order = order_view(sessions[0].turn_order);
            &&& sessions[k].current_turn == position_after(c, k, n)
            &&& sessions[k].turn_order == sessions[0].turn_order
            &&& sessions[k].characters == sessions[0].characters
            &&& forall|j: int|
                0 <= j < k ==> #[trigger] turns[j] == Some(order[position_after(c, j + 1, n)].0)
        }),
    decreases k,
{
    let n = order_view(sessions[0].turn_order).len() as int;
    let c = sessions[0].current_turn as int;
    if k == 0 {
        lemma_wrap_once(c, n);
    } else {
        lemma_turns_so_far(sessions, turns, k - 1);
        assert(is_next_turn(sessions[k - 1], sessions[k], turns[k - 1]));
        lemma_wrap_once(c + k - 1, n);
        lemma_wrap_once(c + k, n);
        lemma_wrap_once(position_after(c, k - 1, n) + 1, n);
    }
}

/// Passing the turn once per entry of the turn order names every entry exactly once, in
/// order from the one after the current one, and brings the turn back where it was; the
/// characters and the turn order stay as they were throughout.
pub proof fn lemma_round_of_turns<C: CharacterSheet, P>(
    sessions: Seq<Session<C, P>>,
    turns: Seq<Option<Seq<char>>>,
)
    requires
        is_turn_sequence(sessions, turns),
        turns.len() == order_view(sessions[0].turn_order).len(),
        sessions[0].current_turn < turns.len(),
    ensures
        ({
            let n = turns.len() as int;
            let c = sessions[0].current_turn as int;
            let order = order_view(sessions[0].turn_order);
            &&& sessions.last().current_turn == sessions[0].current_turn
            &&& sessions.last().turn_order == sessions[0].turn_order
            &&& sessions.last().characters == sessions[0].characters
            &&& forall|k: int|
                0 <= k < n ==> #[trigger] turns[k] == Some(order[position_after(c, k + 1, n)].0)
            &&& positions_reached(c, n).no_duplicates()
            &&& forall|p: int| 0 <= p < n ==> #[trigger] positions_reached(c, n).contains(p)
        }),
{
    let n = turns.len() as int;
    let c = sessions[0].current_turn as int;
    let order = order_view(sessions[0].turn_order);
    lemma_turns_so_far(sessions, turns, n);
    lemma_wrap_once(c + n, n);
    assert(sessions.last() == sessions[n]);
    let reached = positions_reached(c, n);
    assert forall|k1: int, k2: int| 0 <= k1 < reached.len() && 0 <= k2 < reached.len() && k1 != k2
        implies reached[k1] != reached[k2] by {
        lemma_wrap_once(c + k1 + 1, n);
        lemma_wrap_once(c + k2 + 1, n);
    }
    assert forall|p: int| 0 <= p < n implies #[trigger] reached.contains(p) by {
        let k = if p > c {
            p - c - 1
        } else {
            p + n - c - 1
        };
        lemma_wrap_once(c + k + 1, n);
        assert(reached[k] == p);
    }
}

impl<C: CharacterSheet, Phase> Session<C, Phase> {
    /// A name that no character of the session has: `name` itself when it is free,
    /// otherwise `name_2`, `name_3`, ... whichever comes first that is free.
    pub fn unique_name(&self, name: &str) -> (r: String)
        ensures
            is_unique_name(self.characters@, name@, r@),
    {
        if !self.characters.contains_key(name) {
            return name.to_owned();
        }
        let count = self.characters.len();
        let ghost chars = self.characters@;
        let ghost keys = names_of(chars).to_set();
        let ghost mut seen: Set<Seq<char>> = Set::empty();
        proof {
            names_of(chars).lemma_cardinality_of_set();
        }
        let mut i: u128 = 2;
        loop
            invariant
                2 <= i,
                chars == self.characters@,
                chars.len() == count,
                has_name(chars, name@),
                keys == names_of(chars).to_set(),
                keys.finite(),
                keys.len() <= names_of(chars).len(),
                seen.finite(),
                seen.len() == i - 2,
                seen.subset_of(keys),
                forall|x: Seq<char>|
                    #[trigger] seen.contains(x) ==> exists|j: nat| 2 <= j < i && x == numbered_name(name@, j),
                forall|j: nat| 2 <= j < i ==> has_name(chars, #[trigger] numbered_name(name@, j)),
            decreases chars.len() + 2 - i,
        {
            let mut candidate = name.to_owned();
            candidate.append("_");
            let digits = u128_to_decimal(i);
            candidate.append(digits.as_str());
            proof {
                reveal_strlit("_");
                assert(candidate@ =~= numbered_name(name@, i as nat));
            }
            if !self.characters.contains_key(candidate.as_str()) {
                assert forall|j: nat| 2 <= j < i implies has_name(chars, #[trigger] numbered_name(name@, j)) by {}
                return candidate;
            }
            proof {
                if seen.contains(candidate@) {
                    let j = choose|j: nat| 2 <= j < i && candidate@ == numbered_name(name@, j);
                    lemma_numbered_name_injective(name@, j, i as nat);
                }
                seen = seen.insert(candidate@);
                lemma_len_subset(seen, keys);
                assert forall|x: Seq<char>| #[trigger] seen.contains(x) implies exists|j: nat|
                    2 <= j < i + 1 && x == numbered_name(name@, j) by {
                    if x == candidate@ {
                        assert(x == numbered_name(name@, i as nat));
                    }
                }
            }
            i = i + 1;
        }
    }

    /// Sets `name`'s initiative to `value`, adding `name` to the turn order when it is
    /// not there yet, and orders the turn order again.
    pub fn set_initiative(&mut self, name: String, value: i32)
        ensures
            is_initiative_set(*old(self), *final(self), name@, value),
            final(self).turn_order matches Some(o) && o@.contains((name@, value)),
            order_names_distinct(order_view(old(self).turn_order)) ==> order_names_distinct(
                order_view(final(self).turn_order),
            ),
    {
        let ghost old_view = order_view(self.turn_order);
        let mut entries = match self.turn_order.take() {
            Some(order) => order.entries,
            None => Vec::new(),
        };
        assert(entries_view(entries@) =~= old_view);
        let ghost target = with_initiative(old_view, name@, value);
        match find_entry(&entries, &name) {
            Some(i) => {
                entries[i].initiative = value;
                proof {
                    assert(names_in_order(old_view)[i as int] == name@);
                    let j = choose|j: int| first_entry_named(old_view, name@, j);
                    lemma_first_entry_unique(old_view, name@, i as int, j);
                    assert(entries_view(entries@) =~= target);
                }
            },
            None => {
                let ghost n = name@;
                entries.push(InitiativeEntry { name, initiative: value });
                assert(entries_view(entries@) =~= old_view.push((n, value)));
            },
        }
        let ghost n = name@;
        let sorted = TurnOrder::new(entries);
        proof {
            let t = with_initiative(old_view, n, value);
            if in_order(old_view, n) {
                let j = choose|j: int| first_entry_named(old_view, n, j);
                assert(t[j] == (n, value));
            } else {
                assert(t[t.len() - 1] == (n, value));
            }
            lemma_turn_order_members(sorted@, t, (n, value));
            if order_names_distinct(old_view) {
                lemma_initiative_set_names_distinct(old_view, n, value, sorted@);
            }
        }
        self.turn_order = Some(sorted);
    }

    /// Moves the turn to the next entry of the turn order, back to the first after the
    /// last, and names whose turn it is; nothing happens without entries.
    pub fn next_turn(&mut self) -> (r: Option<&str>)
        requires
            order_view(old(self).turn_order).len() > 0 ==> old(self).current_turn < usize::MAX,
        ensures
            is_next_turn(
                *old(self),
                *final(self),
                match r {
                    Some(n) => Some(n@),
                    None => None,
                },
            ),
    {
        match &self.turn_order {
            None => None,
            Some(order) => {
                let len = order.entries.len();
                if len == 0 {
                    None
                } else {
                    self.current_turn = (self.current_turn + 1) % len;
                    Some(order.entries[self.current_turn].name.as_str())
                }
            },
        }
    }
}

impl<C: CharacterSheet> Session<C, Setup> {
    /// A session with no characters and no turn order.
    pub fn new() -> (s: Self)
        ensures
            s.characters@ == Seq::<(Seq<char>, C)>::empty(),
            s.turn_order is None,
            s.current_turn == 0,
    {
        Session { characters: Roster::new(), turn_order: None, current_turn: 0, phase: Setup }
    }

    /// Rolls an initiative for each character that has no entry in the turn order yet,
    /// in roster order.
    fn roll_initiatives(&self) -> (rolls: Vec<i32>)
        ensures
            rolled_for(self.characters@, order_view(self.turn_order), rolls@),
    {
        let ghost chars = self.characters@;
        let ghost order = order_view(self.turn_order);
        let ghost pred = not_in_order(order);
        let empty: Vec<InitiativeEntry> = Vec::new();
        let existing: &Vec<InitiativeEntry> = match &self.turn_order {
            Some(o) => &o.entries,
            None => &empty,
        };
        assert(entries_view(existing@) =~= order);
        let n = self.characters.len();
        let mut rolls: Vec<i32> = Vec::new();
        let mut i: usize = 0;
        while i < n
            invariant
                i <= n,
                n == chars.len(),
                chars == self.characters@,
                entries_view(existing@) == order,
                pred == not_in_order(order),
                rolls@.len() == names_of(chars).take(i as int).filter(pred).len(),
                forall|j: int|
                    0 <= j < rolls@.len() ==> #[trigger] rolled_at(
                        chars,
                        names_of(chars).take(i as int).filter(pred),
                        rolls@,
                        j,
                    ),
            decreases n - i,
        {
            let name = self.characters.name_at(i);
            assert(names_of(chars).take(i + 1) =~= names_of(chars).take(i as int).push(name@));
            assert(entries_view(existing@).take(existing@.len() as int) =~= order);
            proof {
                names_of(chars).take(i as int).lemma_filter_push(name@, pred);
            }
            let ghost before = rolls@;
            let ghost prefix = names_of(chars).take(i as int).filter(pred);
            let ghost next = names_of(chars).take(i + 1).filter(pred);
            if !named_within(existing, existing.len(), name) {
                let c = self.characters.value_at(i);
                let roll = c.initiative();
                assert(call_ensures(C::initiative, (c,), roll));
                rolls.push(roll);
            }
            assert forall|j: int| 0 <= j < rolls@.len() implies #[trigger] rolled_at(
                chars,
                next,
                rolls@,
                j,
            ) by {
                if j < before.len() {
                    assert(rolled_at(chars, prefix, before, j));
                    let k = choose|k: int|
                        0 <= k < chars.len() && #[trigger] names_of(chars)[k] == prefix[j]
                            && call_ensures(C::initiative, (&chars[k].1,), before[j]);
                    assert(next[j] == prefix[j]);
                    assert(rolls@[j] == before[j]);
                    assert(names_of(chars)[k] == next[j]);
                } else {
                    assert(names_of(chars)[i as int] == name@);
                    assert(next[j] == name@);
                    assert(names_of(chars)[i as int] == next[j]);
                }
            }
            i = i + 1;
        }
        assert(names_of(chars).take(n as int) =~= names_of(chars));
        assert(names_of(chars).take(n as int).filter(pred) == unordered_names(chars, order));
        rolls
    }

    /// Starts the combat with the initiatives `rolls` for the characters that have no
    /// entry in the turn order yet, in roster order: their entries join those already
    /// set up, and the turn order is ordered again; the first turn is the first entry's.
    pub fn start_with(self, rolls: Vec<i32>) -> (r: Session<C, InCombat>)
        requires
            rolls@.len() == unordered_names(self.characters@, order_view(self.turn_order)).len(),
        ensures
            is_start_with(self, r, rolls@),
            r.turn_order matches Some(o) && forall|n: Seq<char>|
                names_of(self.characters@).contains(n) ==> in_order(o@, n),
            r.turn_order matches Some(o) && forall|e: EntryView|
                order_view(self.turn_order).contains(e) ==> o@.contains(e),
            order_names_distinct(order_view(self.turn_order)) ==> (r.turn_order matches Some(o)
                && order_names_distinct(o@)),
    {
        let ghost chars = self.characters@;
        let ghost order = order_view(self.turn_order);
        let ghost pred = not_in_order(order);
        let ghost un = unordered_names(chars, order);
        let mut session = self;
        let mut entries = match session.turn_order.take() {
            Some(o) => o.entries,
            None => Vec::new(),
        };
        assert(entries_view(entries@) =~= order);
        let old_len = entries.len();
        let n = session.characters.len();
        let mut k: usize = 0;
        let mut i: usize = 0;
        assert(rolled_entries(names_of(chars).take(0).filter(pred), rolls@.take(0)) =~= Seq::<
            EntryView,
        >::empty());
        while i < n
            invariant
                i <= n,
                n == chars.len(),
                chars == session.characters@,
                old_len == order.len(),
                pred == not_in_order(order),
                un == names_of(chars).filter(pred),
                rolls@.len() == un.len(),
                k == names_of(chars).take(i as int).filter(pred).len(),
                entries_view(entries@) == order + rolled_entries(
                    names_of(chars).take(i as int).filter(pred),
                    rolls@.take(k as int),
                ),
            decreases n - i,
        {
            let ghost before = names_of(chars).take(i as int).filter(pred);
            let name = session.characters.name_at(i);
            assert(names_of(chars).take(i + 1) =~= names_of(chars).take(i as int).push(name@));
            assert(entries_view(entries@).take(old_len as int) =~= order);
            proof {
                names_of(chars).take(i as int).lemma_filter_push(name@, pred);
            }
            if !named_within(&entries, old_len, name) {
                proof {
                    names_of(chars).lemma_filter_take_len(pred, i + 1);
                }
                let ghost old_entries = entries_view(entries@);
                entries.push(InitiativeEntry { name: name.clone(), initiative: rolls[k] });
                assert(rolled_entries(before.push(name@), rolls@.take(k + 1)) =~= rolled_entries(
                    before,
                    rolls@.take(k as int),
                ).push((name@, rolls@[k as int])));
                assert(entries_view(entries@) =~= old_entries.push((name@, rolls@[k as int])));
                k = k + 1;
            }
            i = i + 1;
        }
        assert(names_of(chars).take(n as int) =~= names_of(chars));
        assert(rolls@.take(k as int) =~= rolls@);
        let sorted = TurnOrder::new(entries);
        proof {
            lemma_started_order_covers(chars, order, rolls@, sorted@);
            if order_names_distinct(order) {
                assert forall|a: int, b: int|
                    0 <= a < names_of(chars).len() && 0 <= b < names_of(chars).len() && a != b
                    implies names_of(chars)[a] != names_of(chars)[b] by {}
                lemma_started_order_names_distinct(chars, order, rolls@, sorted@);
            }
        }
        Session {
            characters: session.characters,
            turn_order: Some(sorted),
            current_turn: 0,
            phase: InCombat { _started: () },
        }
    }

    /// Starts the combat: every character without an entry in the turn order rolls its
    /// initiative, the new entries join those already set up, and the turn order is
    /// ordered again; the first turn is the first entry's.
    pub fn start(self) -> (r: Session<C, InCombat>)
        ensures
            exists|rolls: Seq<i32>|
                is_start_with(self, r, rolls) && rolled_for(
                    self.characters@,
                    order_view(self.turn_order),
                    rolls,
                ),
            r.turn_order matches Some(o) && forall|n: Seq<char>|
                names_of(self.characters@).contains(n) ==> in_order(o@, n),
            r.turn_order matches Some(o) && forall|e: EntryView|
                order_view(self.turn_order).contains(e) ==> o@.contains(e),
            order_names_distinct(order_view(self.turn_order)) ==> (r.turn_order matches Some(o)
                && order_names_distinct(o@)),
    {
        let rolls = self.roll_initiatives();
        self.start_with(rolls)
    }
}

} // verus!
