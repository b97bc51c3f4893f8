//! The initiative order of a combat.

use vstd::prelude::*;
use vstd::seq_lib::{to_multiset_build, to_multiset_insert};

verus! {

broadcast use {vstd::seq_lib::group_seq_properties, vstd::multiset::group_multiset_axioms};

/// One combatant's place in the initiative order.
#[derive(Debug, Clone)]
pub struct InitiativeEntry {
    pub name: String,
    pub initiative: i32,
}

/// An entry seen as its name and its initiative.
pub type EntryView = (Seq<char>, i32);

impl View for InitiativeEntry {
    type V = EntryView;

    open spec fn view(&self) -> EntryView {
        (self.name@, self.initiative)
    }
}

/// The views of a sequence of entries.
pub open spec fn entries_view(s: Seq<InitiativeEntry>) -> Seq<EntryView> {
    s.map_values(|e: InitiativeEntry| e@)
}

/// The combatants in the order in which they act: highest initiative first.
pub struct TurnOrder {
    pub entries: Vec<InitiativeEntry>,
}

impl View for TurnOrder {
    type V = Seq<EntryView>;

    open spec fn view(&self) -> Seq<EntryView> {
        entries_view(self.entries@)
    }
}

/// Every entry acts no later than those with a lower initiative.
pub open spec fn sorted_by_initiative(s: Seq<EntryView>) -> bool {
    forall|i: int, j: int| 0 <= i < j < s.len() ==> s[i].1 >= s[j].1
}

/// The entries of `s` whose initiative is `k`, in the order of `s`.
pub open spec fn tier(s: Seq<EntryView>, k: i32) -> Seq<EntryView> {
    s.filter(has_initiative(k))
}

/// Whether an entry has initiative `k`.
pub open spec fn has_initiative(k: i32) -> spec_fn(EntryView) -> bool {
    |e: EntryView| e.1 == k
}

/// `sorted` is `input` ordered by falling initiative, where entries of equal
/// initiative keep the order they had in `input`: the same entries, each as often.
pub open spec fn is_turn_order_of(sorted: Seq<EntryView>, input: Seq<EntryView>) -> bool {
    &&& sorted_by_initiative(sorted)
    &&& forall|k: i32| #[trigger] tier(sorted, k) == tier(input, k)
    &&& sorted.to_multiset() == input.to_multiset()
}

proof fn lemma_tier_of_insert(r: Seq<EntryView>, pos: int, e: EntryView, k: i32)
    requires
        0 <= pos <= r.len(),
        forall|i: int| 0 <= i < pos ==> r[i].1 > e.1,
    ensures
        tier(r.insert(pos, e), k) == if k == e.1 {
            seq![e] + tier(r, k)
        } else {
            tier(r, k)
        },
{
    let p = has_initiative(k);
    let a = r.take(pos);
    let b = r.skip(pos);
    assert(r =~= a + b);
    assert(r.insert(pos, e) =~= a + (seq![e] + b));
    Seq::filter_distributes_over_add(a, b, p);
    Seq::filter_distributes_over_add(a, seq![e] + b, p);
    Seq::filter_distributes_over_add(seq![e], b, p);
    reveal_with_fuel(Seq::filter, 2);
    if k == e.1 {
        assert forall|i: int| 0 <= i < a.len() implies !p(a[i]) by {}
        assert(a.filter(p) =~= Seq::<EntryView>::empty()) by {
            a.lemma_filter_len(p);
            if a.filter(p).len() > 0 {
                a.lemma_filter_contains_rev(p, a.filter(p)[0]);
                a.lemma_filter_pred(p, 0);
            }
        }
    }
}

proof fn lemma_tier_of_prepend(e: EntryView, rest: Seq<EntryView>, k: i32)
    ensures
        tier(seq![e] + rest, k) == if k == e.1 {
            seq![e] + tier(rest, k)
        } else {
            tier(rest, k)
        },
{
    let p = has_initiative(k);
    Seq::filter_distributes_over_add(seq![e], rest, p);
    reveal_with_fuel(Seq::filter, 2);
}

/// What the first entry of a sequence contributes to its tiers.
proof fn lemma_tier_drop_first(s: Seq<EntryView>, k: i32)
    requires
        s.len() > 0,
    ensures
        tier(s, s[0].1).len() > 0,
        tier(s, s[0].1)[0] == s[0],
        tier(s.drop_first(), k) == if k == s[0].1 {
            tier(s, k).drop_first()
        } else {
            tier(s, k)
        },
{
    assert(s =~= seq![s[0]] + s.drop_first());
    lemma_tier_of_prepend(s[0], s.drop_first(), k);
    lemma_tier_of_prepend(s[0], s.drop_first(), s[0].1);
}

/// An entry of `s` with initiative `k` lies in the tier `k` of `s`.
proof fn lemma_tier_contains(s: Seq<EntryView>, i: int)
    requires
        0 <= i < s.len(),
    ensures
        tier(s, s[i].1).contains(s[i]),
{
    let p = has_initiative(s[i].1);
    s.lemma_filter_contains(p, i);
}

/// An entry in a tier of `s` is an entry of `s` with that initiative.
proof fn lemma_tier_member(s: Seq<EntryView>, k: i32, e: EntryView)
    requires
        tier(s, k).contains(e),
    ensures
        s.contains(e),
        e.1 == k,
{
    let p = has_initiative(k);
    s.lemma_filter_contains_rev(p, e);
    let j = choose|j: int| 0 <= j < s.filter(p).len() && s.filter(p)[j] == e;
    s.lemma_filter_pred(p, j);
}

proof fn lemma_same_tiers_same_order(a: Seq<EntryView>, b: Seq<EntryView>)
    requires
        sorted_by_initiative(a),
        sorted_by_initiative(b),
        forall|k: i32| #[trigger] tier(a, k) == tier(b, k),
    ensures
        a == b,
    decreases a.len() + b.len(),
{
    if a.len() == 0 && b.len() == 0 {
        assert(a =~= b);
    } else if a.len() == 0 {
        lemma_tier_contains(b, 0);
        assert(tier(a, b[0].1) == tier(b, b[0].1));
        a.lemma_filter_len(has_initiative(b[0].1));
    } else if b.len() == 0 {
        lemma_tier_contains(a, 0);
        assert(tier(a, a[0].1) == tier(b, a[0].1));
        b.lemma_filter_len(has_initiative(a[0].1));
    } else {
        let m = a[0].1;
        let n = b[0].1;
        lemma_tier_contains(a, 0);
        lemma_tier_contains(b, 0);
        assert(tier(a, n) == tier(b, n));
        assert(tier(a, m) == tier(b, m));
        lemma_tier_member(a, n, b[0]);
        lemma_tier_member(b, m, a[0]);
        assert(m == n);
        lemma_tier_drop_first(a, m);
        lemma_tier_drop_first(b, m);
        assert(a[0] == b[0]);
        assert forall|k: i32| #[trigger] tier(a.drop_first(), k) == tier(b.drop_first(), k) by {
            lemma_tier_drop_first(a, k);
            lemma_tier_drop_first(b, k);
            assert(tier(a, k) == tier(b, k));
        }
        lemma_same_tiers_same_order(a.drop_first(), b.drop_first());
        assert(a =~= seq![a[0]] + a.drop_first());
        assert(b =~= seq![b[0]] + b.drop_first());
    }
}

/// The turn order of a list of entries is unique: ordering by falling initiative,
/// ties kept in their given order, leaves no choice.
pub proof fn lemma_turn_order_unique(
    a: Seq<EntryView>,
    b: Seq<EntryView>,
    input: Seq<EntryView>,
)
    requires
        is_turn_order_of(a, input),
        is_turn_order_of(b, input),
    ensures
        a == b,
{
    assert forall|k: i32| #[trigger] tier(a, k) == tier(b, k) by {
        assert(tier(a, k) == tier(input, k));
        assert(tier(b, k) == tier(input, k));
    }
    lemma_same_tiers_same_order(a, b);
}

impl TurnOrder {
    /// Orders `entries` by falling initiative; entries of equal initiative keep
    /// the order they were given in.
    pub fn new(entries: Vec<InitiativeEntry>) -> (order: Self)
        ensures
            is_turn_order_of(order@, entries_view(entries@)),
            order.entries@.len() == entries@.len(),
            order.entries@.to_multiset() == entries@.to_multiset(),
    {
        let ghost input = entries@;
        let ghost iv = entries_view(input);
        let mut rest = entries;
        let mut sorted: Vec<InitiativeEntry> = Vec::new();
        while rest.len() > 0
            invariant
                rest@ == input.take(rest@.len() as int),
                iv == entries_view(input),
                rest@.len() <= input.len(),
                sorted@.len() + rest@.len() == input.len(),
                sorted_by_initiative(entries_view(sorted@)),
                forall|k: i32| #[trigger] tier(entries_view(sorted@), k) == tier(iv.skip(rest@.len() as int), k),
                sorted@.to_multiset().add(rest@.to_multiset()) == input.to_multiset(),
                entries_view(sorted@).to_multiset().add(entries_view(rest@).to_multiset())
                    == iv.to_multiset(),
            decreases rest@.len(),
        {
            let ghost m = rest@.len() as int;
            let ghost old_rest = rest@;
            let e = rest.pop().unwrap();
            let ghost old_sorted = sorted@;
            let ghost osv = entries_view(old_sorted);
            proof {
                assert(old_rest =~= rest@.push(e));
                to_multiset_build(rest@, e);
            }
            assert(e == input[m - 1]);
            let mut pos: usize = 0;
            while pos < sorted.len() && sorted[pos].initiative > e.initiative
                invariant
                    pos <= sorted@.len(),
                    sorted@ == old_sorted,
                    osv == entries_view(old_sorted),
                    forall|i: int| 0 <= i < pos ==> osv[i].1 > e.initiative,
                decreases sorted@.len() - pos,
            {
                pos = pos + 1;
            }
            let ghost ev = e@;
            let ghost e_ghost = e;
            sorted.insert(pos, e);
            proof {
                to_multiset_insert(old_sorted, pos as int, e_ghost);
                assert(sorted@.to_multiset().add(rest@.to_multiset()) =~= old_sorted.to_multiset().add(
                    old_rest.to_multiset(),
                ));
            }
            assert(entries_view(sorted@) =~= osv.insert(pos as int, ev));
            proof {
                assert(entries_view(old_rest) =~= entries_view(rest@).push(ev));
                to_multiset_build(entries_view(rest@), ev);
                to_multiset_insert(osv, pos as int, ev);
                assert(entries_view(sorted@).to_multiset().add(entries_view(rest@).to_multiset())
                    =~= osv.to_multiset().add(entries_view(old_rest).to_multiset()));
            }
            assert(iv.skip(m - 1) =~= seq![ev] + iv.skip(m));
            assert forall|k: i32| #[trigger] tier(entries_view(sorted@), k) == tier(iv.skip(m - 1), k) by {
                lemma_tier_of_insert(osv, pos as int, ev, k);
                lemma_tier_of_prepend(ev, iv.skip(m), k);
            }
            assert forall|i: int, j: int| 0 <= i < j < sorted@.len() implies entries_view(sorted@)[i].1
                >= entries_view(sorted@)[j].1 by {
                if pos < old_sorted.len() {
                    assert(osv[pos as int].1 <= ev.1);
                }
            }
        }
        assert(iv.skip(0) =~= iv);
        assert(rest@ =~= Seq::<InitiativeEntry>::empty());
        assert(sorted@.to_multiset() =~= sorted@.to_multiset().add(rest@.to_multiset()));
        assert(entries_view(rest@) =~= Seq::<EntryView>::empty());
        assert(entries_view(sorted@).to_multiset() =~= entries_view(sorted@).to_multiset().add(
            entries_view(rest@).to_multiset(),
        ));
        TurnOrder { entries: sorted }
    }
}

} // verus!
