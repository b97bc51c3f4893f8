//! The rows of the tables that show a character: its stats, inventory and actions.

use crate::model::character::dnd::DndStats;
use crate::model::character::{Action, Item};
use crate::text::{i32_to_decimal, int_decimal, nat_digits, u128_to_decimal};
use vstd::prelude::*;

verus! {

/// The text shown for an optional field: the field, or "-" when it is absent.
pub open spec fn or_dash(s: Option<String>) -> Seq<char> {
    match s {
        Some(t) => t@,
        None => "-"@,
    }
}

/// The rows of the stats table: a label and a value each.
pub open spec fn stat_rows_view(s: DndStats) -> Seq<(Seq<char>, Seq<char>)> {
    seq![
        ("HP"@, int_decimal(s.hp as int) + seq!['/'] + int_decimal(s.max_hp as int)),
        ("Armour Class"@, int_decimal(s.armour_class as int)),
        ("Strength"@, int_decimal(s.strength as int)),
        ("Dexterity"@, int_decimal(s.dexterity as int)),
        ("Constitution"@, int_decimal(s.constitution as int)),
        ("Intelligence"@, int_decimal(s.intelligence as int)),
        ("Wisdom"@, int_decimal(s.wisdom as int)),
        ("Charisma"@, int_decimal(s.charisma as int)),
    ]
}

/// The stat that a label of the stats table names, for every label but "HP".
pub open spec fn stat_named(s: DndStats, label: Seq<char>) -> Option<i32> {
    if label == "Armour Class"@ {
        Some(s.armour_class)
    } else if label == "Strength"@ {
        Some(s.strength)
    } else if label == "Dexterity"@ {
        Some(s.dexterity)
    } else if label == "Constitution"@ {
        Some(s.constitution)
    } else if label == "Intelligence"@ {
        Some(s.intelligence)
    } else if label == "Wisdom"@ {
        Some(s.wisdom)
    } else if label == "Charisma"@ {
        Some(s.charisma)
    } else {
        None
    }
}

/// Each row of the stats table shows what its label names: the first shows the current
/// and maximum hit points, and every other row the decimal of the stat its label names.
/// The rows come in the order HP, Armour Class, Strength, Dexterity, Constitution,
/// Intelligence, Wisdom, Charisma; no label comes twice, and every stat has its row.
pub proof fn lemma_stat_rows_show_their_stats(s: DndStats)
    ensures
        stat_rows_view(s).len() == 8,
        stat_rows_view(s).map_values(|r: (Seq<char>, Seq<char>)| r.0) == seq![
            "HP"@,
            "Armour Class"@,
            "Strength"@,
            "Dexterity"@,
            "Constitution"@,
            "Intelligence"@,
            "Wisdom"@,
            "Charisma"@,
        ],
        stat_rows_view(s)[0] == ("HP"@, int_decimal(s.hp as int) + seq!['/'] + int_decimal(
            s.max_hp as int,
        )),
        forall|k: int|
            1 <= k < 8 ==> (#[trigger] stat_named(s, stat_rows_view(s)[k].0) matches Some(v)
                && stat_rows_view(s)[k].1 == int_decimal(v as int)),
        forall|k: int, j: int|
            0 <= k < j < 8 ==> #[trigger] stat_rows_view(s)[k].0 != #[trigger] stat_rows_view(
                s,
            )[j].0,
        forall|label: Seq<char>|
            #[trigger] stat_named(s, label) is Some ==> exists|k: int|
                1 <= k < 8 && stat_rows_view(s)[k].0 == label,
{
    reveal_strlit("HP");
    reveal_strlit("Armour Class");
    reveal_strlit("Strength");
    reveal_strlit("Dexterity");
    reveal_strlit("Constitution");
    reveal_strlit("Intelligence");
    reveal_strlit("Wisdom");
    reveal_strlit("Charisma");
    assert("HP"@.len() == 2 && "HP"@[0] == 'H');
    assert("Armour Class"@.len() == 12 && "Armour Class"@[0] == 'A');
    assert("Strength"@.len() == 8 && "Strength"@[0] == 'S');
    assert("Dexterity"@.len() == 9 && "Dexterity"@[0] == 'D');
    assert("Constitution"@.len() == 12 && "Constitution"@[0] == 'C');
    assert("Intelligence"@.len() == 12 && "Intelligence"@[0] == 'I');
    assert("Wisdom"@.len() == 6 && "Wisdom"@[0] == 'W');
    assert("Charisma"@.len() == 8 && "Charisma"@[0] == 'C');
    let r = stat_rows_view(s);
    assert(r.map_values(|r: (Seq<char>, Seq<char>)| r.0) =~= seq![
        "HP"@,
        "Armour Class"@,
        "Strength"@,
        "Dexterity"@,
        "Constitution"@,
        "Intelligence"@,
        "Wisdom"@,
        "Charisma"@,
    ]);
    assert(stat_named(s, r[1].0) == Some(s.armour_class));
    assert(stat_named(s, r[2].0) == Some(s.strength));
    assert(stat_named(s, r[3].0) == Some(s.dexterity));
    assert(stat_named(s, r[4].0) == Some(s.constitution));
    assert(stat_named(s, r[5].0) == Some(s.intelligence));
    assert(stat_named(s, r[6].0) == Some(s.wisdom));
    assert(stat_named(s, r[7].0) == Some(s.charisma));
    assert forall|label: Seq<char>| #[trigger] stat_named(s, label) is Some implies exists|k: int|
        1 <= k < 8 && r[k].0 == label by {
        if label == r[1].0 {
        } else if label == r[2].0 {
        } else if label == r[3].0 {
        } else if label == r[4].0 {
        } else if label == r[5].0 {
        } else if label == r[6].0 {
        } else {
            assert(label == r[7].0);
        }
    }
}

/// The text of an optional field.
fn dash_if_none(s: &Option<String>) -> (r: String)
    ensures
        r@ == or_dash(*s),
{
    match s {
        Some(t) => t.clone(),
        None => "-".to_owned(),
    }
}

fn row(label: &str, value: String) -> (r: (String, String))
    ensures
        r.0@ == label@,
        r.1@ == value@,
{
    (label.to_owned(), value)
}

/// The rows of the stats table.
pub fn stat_rows(s: &DndStats) -> (r: Vec<(String, String)>)
    ensures
        r@.map_values(|p: (String, String)| (p.0@, p.1@)) == stat_rows_view(*s),
        r@.len() == 8,
        forall|k: int|
            1 <= k < 8 ==> (#[trigger] stat_named(*s, r@[k].0@) matches Some(v) && r@[k].1@
                == int_decimal(v as int)),
{
    proof {
        lemma_stat_rows_show_their_stats(*s);
    }
    let mut hp = i32_to_decimal(s.hp);
    hp.append("/");
    let max = i32_to_decimal(s.max_hp);
    hp.append(max.as_str());
    proof {
        reveal_strlit("/");
    }
    let mut r: Vec<(String, String)> = Vec::new();
    r.push(row("HP", hp));
    r.push(row("Armour Class", i32_to_decimal(s.armour_class)));
    r.push(row("Strength", i32_to_decimal(s.strength)));
    r.push(row("Dexterity", i32_to_decimal(s.dexterity)));
    r.push(row("Constitution", i32_to_decimal(s.constitution)));
    r.push(row("Intelligence", i32_to_decimal(s.intelligence)));
    r.push(row("Wisdom", i32_to_decimal(s.wisdom)));
    r.push(row("Charisma", i32_to_decimal(s.charisma)));
    let ghost v = r@.map_values(|p: (String, String)| (p.0@, p.1@));
    assert(v[0] == stat_rows_view(*s)[0]);
    assert(v =~= stat_rows_view(*s));
    assert forall|k: int| 1 <= k < 8 implies (#[trigger] stat_named(*s, r@[k].0@) matches Some(x)
        && r@[k].1@ == int_decimal(x as int)) by {
        assert(v[k] == (r@[k].0@, r@[k].1@));
        assert(stat_named(*s, stat_rows_view(*s)[k].0) is Some);
    }
    r
}

/// The row of the inventory table for an item: name, quantity and description.
pub fn item_row(item: &Item) -> (r: (String, String, String))
    ensures
        r.0@ == item.name@,
        r.1@ == nat_digits(item.quantity as nat),
        r.2@ == or_dash(item.description),
{
    (item.name.clone(), u128_to_decimal(item.quantity as u128), dash_if_none(&item.description))
}

/// The row of the actions table for an action: name, description, damage and recharge.
pub fn action_row(action: &Action) -> (r: (String, String, String, String))
    ensures
        r.0@ == action.name@,
        r.1@ == action.description@,
        r.2@ == or_dash(action.damage),
        r.3@ == or_dash(action.recharge),
{
    (
        action.name.clone(),
        action.description.clone(),
        dash_if_none(&action.damage),
        dash_if_none(&action.recharge),
    )
}

} // verus!
