use combathelper::cli::display::{action_row, item_row, stat_rows};
use combathelper::model::character::dnd::DndStats;
use combathelper::model::character::{Action, Item};

#[test]
fn stat_rows_label_each_value() {
    let s = DndStats {
        hp: 12,
        max_hp: 40,
        armour_class: 16,
        strength: 18,
        dexterity: -1,
        constitution: 16,
        intelligence: 12,
        wisdom: 14,
        charisma: 8,
    };
    let rows = stat_rows(&s);
    let expected: Vec<(String, String)> = [
        ("HP", "12/40"),
        ("Armour Class", "16"),
        ("Strength", "18"),
        ("Dexterity", "-1"),
        ("Constitution", "16"),
        ("Intelligence", "12"),
        ("Wisdom", "14"),
        ("Charisma", "8"),
    ]
    .iter()
    .map(|(a, b)| (a.to_string(), b.to_string()))
    .collect();
    assert_eq!(rows, expected);
}

#[test]
fn missing_fields_show_a_dash() {
    let item = Item { name: "Rope".to_string(), quantity: 50, description: None };
    assert_eq!(item_row(&item), ("Rope".to_string(), "50".to_string(), "-".to_string()));
    let action = Action {
        name: "Bite".to_string(),
        description: "Melee".to_string(),
        damage: Some("1d6".to_string()),
        recharge: None,
    };
    assert_eq!(
        action_row(&action),
        ("Bite".to_string(), "Melee".to_string(), "1d6".to_string(), "-".to_string())
    );
}
