use combathelper::combat::roster::Roster;

#[test]
fn get_finds_what_insert_added() {
    let mut r: Roster<u32> = Roster::new();
    assert!(r.is_empty());
    assert_eq!(r.insert("Goblin".to_string(), 1), None);
    assert_eq!(r.insert("Orc".to_string(), 2), None);
    assert_eq!(r.get("Goblin"), Some(&1));
    assert_eq!(r.insert("Goblin".to_string(), 3), Some(1));
    assert_eq!(r.get("Goblin"), Some(&3));
    assert_eq!(r.len(), 2);
    assert_eq!(r.names(), vec!["Goblin", "Orc"]);
    assert_eq!(r.get("Troll"), None);
    *r.get_mut("Orc").unwrap() = 9;
    assert_eq!(r.value_at(1), &9);
    assert_eq!(r.name_at(0), "Goblin");
    assert!(r.get_mut("Troll").is_none());
}
