use combathelper::model::character::dnd::{get_modifier, DndCharacter, DndStats};
use combathelper::model::character::{Action, CharacterSheet, Item};
use std::collections::HashMap;

fn make_character() -> DndCharacter {
    let mut inventory = HashMap::new();
    inventory.insert("Longsword".to_string(), Item {
        name: "Longsword".to_string(),
        quantity: 1,
        description: Some("A finely crafted blade.".to_string()),
    });

    let mut actions = HashMap::new();
    actions.insert("Attack".to_string(), Action {
        name: "Attack".to_string(),
        description: "Melee weapon attack.".to_string(),
        damage: Some("1d8+4".to_string()),
        recharge: None,
    });

    DndCharacter {
        name: "Aragorn".to_string(),
        stats: DndStats {
            hp: 40,
            max_hp: 40,
            armour_class: 16,
            strength: 18,
            dexterity: 14,
            constitution: 16,
            intelligence: 12,
            wisdom: 14,
            charisma: 16,
        },
        inventory,
        actions,
    }
}

#[test]
fn damage_reduces_hp() {
    let mut c = make_character();
    c.apply_damage(10);
    assert_eq!(c.stats.hp, 30);
}

#[test]
fn damage_does_not_go_below_zero() {
    let mut c = make_character();
    c.apply_damage(c.stats.max_hp + 1);
    assert_eq!(c.stats.hp, 0);
}

#[test]
fn heal_increase_hp() {
    let mut c = make_character();
    c.stats.hp = 0;
    c.apply_heal(10);
    assert_eq!(c.stats.hp, 10);
}

#[test]
fn heal_does_not_exceed_max_hp() {
    let mut c = make_character();
    c.apply_heal(c.stats.max_hp + 1);
    assert_eq!(c.stats.hp, c.stats.max_hp);
}

#[test]
fn damage_then_full_heal_restores_max() {
    let mut c = make_character();
    c.stats.hp = c.stats.max_hp;
    c.apply_damage(15);
    c.apply_heal(15);
    assert_eq!(c.stats.hp, c.stats.max_hp);
}

#[test]
fn sheet_accessors_expose_the_fields() {
    let mut c = make_character();
    assert_eq!(c.name(), "Aragorn");
    assert_eq!(c.stats().armour_class, 16);
    assert_eq!(c.inventory().get("Longsword").unwrap().quantity, 1);
    assert_eq!(c.actions().get("Attack").unwrap().damage.as_deref(), Some("1d8+4"));
    c.stats_mut().hp = 7;
    assert_eq!(c.stats.hp, 7);
}

#[test]
fn health_text_shows_current_and_maximum() {
    let mut c = make_character();
    assert_eq!(c.health_to_string(), "40/40");
    c.apply_damage(45);
    assert_eq!(c.health_to_string(), "0/40");
    c.stats.hp = -3;
    c.stats.max_hp = i32::MIN;
    assert_eq!(c.health_to_string(), "-3/-2147483648");
}

#[test]
fn negative_damage_heals_past_the_maximum() {
    let mut c = make_character();
    c.apply_damage(-5);
    assert_eq!(c.stats.hp, 45);
}

#[test]
fn heal_of_a_downed_character_is_capped() {
    let mut c = make_character();
    c.apply_damage(100);
    c.apply_heal(100);
    assert_eq!(c.stats.hp, 40);
}

#[test]
fn modifier_rounds_down() {
    assert_eq!(get_modifier(10), 0);
    assert_eq!(get_modifier(11), 0);
    assert_eq!(get_modifier(14), 2);
    assert_eq!(get_modifier(9), -1);
    assert_eq!(get_modifier(8), -1);
    assert_eq!(get_modifier(1), -5);
    assert_eq!(get_modifier(i32::MIN), -1073741829);
    assert_eq!(get_modifier(i32::MAX), 1073741818);
}

#[test]
fn initiative_is_a_d20_plus_dexterity_modifier() {
    let c = make_character();
    for _ in 0..200 {
        let i = c.initiative();
        assert!((3..=22).contains(&i), "initiative {} out of range", i);
    }
    assert_eq!(c.initiative_with_roll(7), 9);
}
