use combathelper::combat::initiative::{InitiativeEntry, TurnOrder};
use combathelper::combat::session::Session;
use combathelper::model::character::dnd::{DndCharacter, DndStats};
use std::collections::HashMap;

fn make_character(name: &str, dexterity: i32) -> DndCharacter {
    DndCharacter {
        name: name.to_string(),
        stats: DndStats {
            hp: 20,
            max_hp: 20,
            armour_class: 12,
            strength: 10,
            dexterity,
            constitution: 10,
            intelligence: 10,
            wisdom: 10,
            charisma: 10,
        },
        inventory: HashMap::new(),
        actions: HashMap::new(),
    }
}

fn make_entry(name: &str, initiative: i32) -> InitiativeEntry {
    InitiativeEntry { name: name.to_string(), initiative }
}

fn names(order: &TurnOrder) -> Vec<(String, i32)> {
    order.entries.iter().map(|e| (e.name.clone(), e.initiative)).collect()
}

#[test]
fn loaded_character_is_retrievable() {
    let mut session: Session<DndCharacter> = Session::new();
    session.characters.insert("Aragorn".to_string(), make_character("Aragorn", 14));
    assert!(session.characters.contains_key("Aragorn"));
}

#[test]
fn turn_order_is_sorted_descending() {
    let mut session: Session<DndCharacter> = Session::new();
    session.turn_order = Some(TurnOrder::new(vec![
        make_entry("Goblin", 12),
        make_entry("Aragorn", 18),
    ]));
    let order = session.turn_order.unwrap();
    assert_eq!(order.entries.len(), 2);
    assert!(order.entries[0].initiative >= order.entries[1].initiative);
}

#[test]
fn next_turn_returns_none_without_roll() {
    let mut session: Session<DndCharacter> = Session::new();
    assert!(session.next_turn().is_none());
}

#[test]
fn next_turn_wraps_around() {
    let mut session: Session<DndCharacter> = Session::new();
    session.turn_order = Some(TurnOrder::new(vec![
        make_entry("Aragorn", 18),
        make_entry("Goblin", 12),
    ]));
    session.next_turn();
    session.next_turn();
    assert_eq!(session.current_turn, 0);
}

#[test]
fn ties_keep_their_given_order() {
    let order = TurnOrder::new(vec![
        make_entry("a", 5),
        make_entry("b", 9),
        make_entry("c", 5),
        make_entry("d", 9),
        make_entry("e", -1),
        make_entry("f", 5),
    ]);
    let expected: Vec<(String, i32)> = vec![
        ("b".to_string(), 9),
        ("d".to_string(), 9),
        ("a".to_string(), 5),
        ("c".to_string(), 5),
        ("f".to_string(), 5),
        ("e".to_string(), -1),
    ];
    assert_eq!(names(&order), expected);
    assert!(TurnOrder::new(vec![]).entries.is_empty());
}

#[test]
fn next_turn_names_each_entry_in_turn() {
    let mut session: Session<DndCharacter> = Session::new();
    session.turn_order = Some(TurnOrder::new(vec![
        make_entry("Goblin", 12),
        make_entry("Aragorn", 18),
        make_entry("Orc", 3),
    ]));
    assert_eq!(session.next_turn(), Some("Goblin"));
    assert_eq!(session.current_turn, 1);
    assert_eq!(session.next_turn(), Some("Orc"));
    assert_eq!(session.next_turn(), Some("Aragorn"));
    assert_eq!(session.current_turn, 0);
}

#[test]
fn next_turn_with_an_empty_order_changes_nothing() {
    let mut session: Session<DndCharacter> = Session::new();
    session.turn_order = Some(TurnOrder::new(vec![]));
    session.current_turn = 4;
    assert!(session.next_turn().is_none());
    assert_eq!(session.current_turn, 4);
}

#[test]
fn unique_name_numbers_taken_names() {
    let mut session: Session<DndCharacter> = Session::new();
    assert_eq!(session.unique_name("Goblin"), "Goblin");
    session.characters.insert("Goblin".to_string(), make_character("Goblin", 10));
    assert_eq!(session.unique_name("Goblin"), "Goblin_2");
    session.characters.insert("Goblin_2".to_string(), make_character("Goblin", 10));
    session.characters.insert("Goblin_4".to_string(), make_character("Goblin", 10));
    assert_eq!(session.unique_name("Goblin"), "Goblin_3");
    session.characters.insert("Goblin_3".to_string(), make_character("Goblin", 10));
    assert_eq!(session.unique_name("Goblin"), "Goblin_5");
    assert_eq!(session.unique_name("Orc"), "Orc");
}

#[test]
fn unique_name_goes_past_nine() {
    let mut session: Session<DndCharacter> = Session::new();
    session.characters.insert("Rat".to_string(), make_character("Rat", 10));
    for i in 2..=11 {
        let n = session.unique_name("Rat");
        assert_eq!(n, format!("Rat_{}", i));
        session.characters.insert(n, make_character("Rat", 10));
    }
    assert_eq!(session.unique_name("Rat"), "Rat_12");
}

#[test]
fn set_initiative_updates_or_adds_and_reorders() {
    let mut session: Session<DndCharacter> = Session::new();
    session.set_initiative("Goblin".to_string(), 12);
    assert_eq!(names(session.turn_order.as_ref().unwrap()), vec![("Goblin".to_string(), 12)]);
    session.set_initiative("Aragorn".to_string(), 18);
    session.set_initiative("Orc".to_string(), 12);
    assert_eq!(
        names(session.turn_order.as_ref().unwrap()),
        vec![("Aragorn".to_string(), 18), ("Goblin".to_string(), 12), ("Orc".to_string(), 12)]
    );
    session.set_initiative("Orc".to_string(), 20);
    assert_eq!(
        names(session.turn_order.as_ref().unwrap()),
        vec![("Orc".to_string(), 20), ("Aragorn".to_string(), 18), ("Goblin".to_string(), 12)]
    );
}

#[test]
fn start_rolls_for_characters_without_initiative() {
    let mut session: Session<DndCharacter> = Session::new();
    session.characters.insert("Aragorn".to_string(), make_character("Aragorn", 14));
    session.characters.insert("Goblin".to_string(), make_character("Goblin", 10));
    session.set_initiative("Goblin".to_string(), 30);
    let combat = session.start();
    let order = names(combat.turn_order.as_ref().unwrap());
    assert_eq!(order.len(), 2);
    assert_eq!(order[0], ("Goblin".to_string(), 30));
    assert_eq!(order[1].0, "Aragorn");
    assert!((3..=22).contains(&order[1].1));
    assert_eq!(combat.current_turn, 0);
    assert!(combat.characters.contains_key("Aragorn"));
}

#[test]
fn start_with_uses_the_given_rolls_in_roster_order() {
    let mut session: Session<DndCharacter> = Session::new();
    session.characters.insert("A".to_string(), make_character("A", 10));
    session.characters.insert("B".to_string(), make_character("B", 10));
    session.characters.insert("C".to_string(), make_character("C", 10));
    session.set_initiative("B".to_string(), 7);
    let combat = session.start_with(vec![7, 9]);
    assert_eq!(
        names(combat.turn_order.as_ref().unwrap()),
        vec![("C".to_string(), 9), ("B".to_string(), 7), ("A".to_string(), 7)]
    );
}

#[test]
fn setting_the_same_initiative_twice_changes_nothing() {
    let mut session: Session<DndCharacter> = Session::new();
    session.set_initiative("Goblin".to_string(), 12);
    session.set_initiative("Aragorn".to_string(), 12);
    session.set_initiative("Orc".to_string(), 3);
    session.set_initiative("Goblin".to_string(), 15);
    let once = names(session.turn_order.as_ref().unwrap());
    session.set_initiative("Goblin".to_string(), 15);
    assert_eq!(names(session.turn_order.as_ref().unwrap()), once);
    assert_eq!(
        once,
        vec![("Goblin".to_string(), 15), ("Aragorn".to_string(), 12), ("Orc".to_string(), 3)]
    );
}

#[test]
fn a_round_of_turns_names_each_entry_once_and_comes_back() {
    let mut session: Session<DndCharacter> = Session::new();
    session.turn_order = Some(TurnOrder::new(vec![
        make_entry("a", 4),
        make_entry("b", 3),
        make_entry("c", 2),
        make_entry("d", 1),
    ]));
    session.current_turn = 1;
    let mut seen = Vec::new();
    for _ in 0..4 {
        seen.push(session.next_turn().unwrap().to_string());
    }
    assert_eq!(seen, vec!["c", "d", "a", "b"]);
    assert_eq!(session.current_turn, 1);
}

#[test]
fn start_gives_every_character_exactly_one_entry() {
    let mut session: Session<DndCharacter> = Session::new();
    session.characters.insert("A".to_string(), make_character("A", 18));
    session.characters.insert("B".to_string(), make_character("B", 8));
    session.characters.insert("C".to_string(), make_character("C", 10));
    session.set_initiative("B".to_string(), 11);
    let combat = session.start();
    let order = names(combat.turn_order.as_ref().unwrap());
    assert_eq!(order.len(), 3);
    for (name, low, high) in [("A", 5, 24), ("B", 11, 11), ("C", 1, 20)] {
        let found: Vec<&(String, i32)> = order.iter().filter(|e| e.0 == name).collect();
        assert_eq!(found.len(), 1);
        assert!((low..=high).contains(&found[0].1));
    }
    assert!(order.windows(2).all(|w| w[0].1 >= w[1].1));
}
