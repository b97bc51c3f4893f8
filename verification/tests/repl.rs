use combathelper::cli::repl::{parse_command, ActiveSession, ReplCommand, Reply};
use combathelper::model::character::dnd::{DndCharacter, DndStats};
use std::collections::HashMap;

fn character(name: &str, hp: i32, max_hp: i32) -> DndCharacter {
    DndCharacter {
        name: name.to_string(),
        stats: DndStats {
            hp,
            max_hp,
            armour_class: 12,
            strength: 10,
            dexterity: 10,
            constitution: 10,
            intelligence: 10,
            wisdom: 10,
            charisma: 10,
        },
        inventory: HashMap::new(),
        actions: HashMap::new(),
    }
}

fn step(active: ActiveSession, line: &str) -> (ActiveSession, Reply) {
    let cmd = parse_command(line);
    assert!(active.can_step(&cmd));
    active.step(cmd)
}

#[test]
fn parses_each_command() {
    assert!(matches!(parse_command("show Aragorn"), ReplCommand::Show(n) if n == "Aragorn"));
    assert!(matches!(parse_command("  load  chars/goblin.json "), ReplCommand::Load(p) if p == "chars/goblin.json"));
    assert!(matches!(parse_command("initiative Goblin 12"), ReplCommand::SetInitiative(n, 12) if n == "Goblin"));
    assert!(matches!(parse_command("initiative Goblin -3"), ReplCommand::SetInitiative(n, -3) if n == "Goblin"));
    assert!(matches!(parse_command("initiative Goblin twelve"), ReplCommand::Unknown));
    assert!(matches!(parse_command("heal Goblin 5"), ReplCommand::Heal(n, 5) if n == "Goblin"));
    assert!(matches!(parse_command("damage Goblin 7"), ReplCommand::Damage(n, 7) if n == "Goblin"));
    assert!(matches!(parse_command("damage Goblin 99999999999"), ReplCommand::Unknown));
    assert!(matches!(parse_command("start"), ReplCommand::Start));
    assert!(matches!(parse_command("list"), ReplCommand::List));
    assert!(matches!(parse_command("order"), ReplCommand::Order));
    assert!(matches!(parse_command("next"), ReplCommand::Next));
    assert!(matches!(parse_command("quit"), ReplCommand::Quit));
    assert!(matches!(parse_command("exit"), ReplCommand::Quit));
    assert!(matches!(parse_command(""), ReplCommand::Unknown));
    assert!(matches!(parse_command("show"), ReplCommand::Unknown));
    assert!(matches!(parse_command("list all"), ReplCommand::Unknown));
    assert!(matches!(parse_command("Show Aragorn"), ReplCommand::Unknown));
    assert!(matches!(parse_command("heal Goblin 5 more"), ReplCommand::Unknown));
}

#[test]
fn setup_refuses_combat_commands() {
    let active = ActiveSession::new();
    let (active, r) = step(active, "next");
    assert!(matches!(r, Reply::StartFirst));
    let (active, r) = step(active, "heal Goblin 5");
    assert!(matches!(r, Reply::StartFirst));
    let (active, r) = step(active, "order");
    assert!(matches!(r, Reply::StartCombatFirst));
    let (active, r) = step(active, "start");
    assert!(matches!(r, Reply::NoCharactersLoaded));
    let (active, r) = step(active, "list");
    assert!(matches!(r, Reply::NoCharacters));
    let (_, r) = step(active, "load goblin.json");
    assert!(matches!(r, Reply::LoadFile(p) if p == "goblin.json"));
}

#[test]
fn a_whole_combat() {
    let mut active = ActiveSession::new();
    assert_eq!(active.add_character(character("Goblin", 7, 7)).as_deref(), Some("Goblin"));
    assert_eq!(active.add_character(character("Goblin", 7, 7)).as_deref(), Some("Goblin_2"));
    assert_eq!(active.add_character(character("Aragorn", 40, 40)).as_deref(), Some("Aragorn"));

    let (active, r) = step(active, "list");
    match r {
        Reply::Names(v) => assert_eq!(v, vec!["Goblin", "Goblin_2", "Aragorn"]),
        _ => panic!("expected names"),
    }
    let (active, r) = step(active, "show Goblin_2");
    assert!(matches!(r, Reply::Show(n) if n == "Goblin_2"));
    let (active, r) = step(active, "show Orc");
    assert!(matches!(r, Reply::NoCharacterNamed(n) if n == "Orc"));

    let (active, r) = step(active, "initiative Goblin 30");
    assert!(matches!(r, Reply::Silent));
    let (active, r) = step(active, "initiative Goblin_2 25");
    assert!(matches!(r, Reply::Silent));
    let (active, r) = step(active, "initiative Aragorn 27");
    assert!(matches!(r, Reply::Silent));

    let (mut active, r) = step(active, "start");
    match r {
        Reply::CombatStarted(v) => {
            let got: Vec<(String, i32)> = v.into_iter().map(|e| (e.name, e.initiative)).collect();
            assert_eq!(
                got,
                vec![
                    ("Goblin".to_string(), 30),
                    ("Aragorn".to_string(), 27),
                    ("Goblin_2".to_string(), 25)
                ]
            );
        }
        _ => panic!("expected the combat to start"),
    }
    assert!(active.add_character(character("Orc", 9, 9)).is_none());
    let (active, r) = step(active, "start");
    assert!(matches!(r, Reply::AlreadyStarted));
    let (active, r) = step(active, "load orc.json");
    assert!(matches!(r, Reply::CannotLoadInCombat));

    let (active, r) = step(active, "next");
    assert!(matches!(r, Reply::Turn(n) if n == "Aragorn"));
    let (active, r) = step(active, "order");
    match r {
        Reply::Order(v, current) => {
            assert_eq!(v.len(), 3);
            assert_eq!(current, 1);
            assert_eq!(v[current].name, "Aragorn");
        }
        _ => panic!("expected the order"),
    }

    let (active, r) = step(active, "damage Goblin 10");
    assert!(matches!(r, Reply::Damaged(n, 10, h) if n == "Goblin" && h == "0/7"));
    let (active, r) = step(active, "heal Goblin 3");
    assert!(matches!(r, Reply::Healed(n, 3, h) if n == "Goblin" && h == "3/7"));
    let (active, r) = step(active, "heal Orc 3");
    assert!(matches!(r, Reply::NoCharacterWithName(n) if n == "Orc"));
    assert_eq!(active.characters().get("Goblin").unwrap().stats.hp, 3);

    let (active, r) = step(active, "next");
    assert!(matches!(r, Reply::Turn(n) if n == "Goblin_2"));
    let (active, r) = step(active, "next");
    assert!(matches!(r, Reply::Turn(n) if n == "Goblin"));
    let (active, r) = step(active, "dance");
    assert!(matches!(r, Reply::Unknown));
    let (_, r) = step(active, "quit");
    assert!(matches!(r, Reply::Quit));
}

#[test]
fn overflowing_heal_is_refused_up_front() {
    let mut active = ActiveSession::new();
    active.add_character(character("Troll", i32::MAX - 1, i32::MAX));
    let (active, _) = step(active, "start");
    let cmd = parse_command("heal Troll 5");
    assert!(!active.can_step(&cmd));
    let cmd = parse_command("heal Troll 1");
    assert!(active.can_step(&cmd));
}

#[test]
fn spacing_does_not_change_the_command() {
    let lines = [
        "  show   Aragorn  ",
        "\tinitiative  Goblin\t12\n",
        "damage Goblin    7",
        "   next",
        "list all  ",
        "  ",
        "heal\u{2003}Goblin 5",
    ];
    for line in lines {
        let joined = line.split_whitespace().collect::<Vec<_>>().join(" ");
        assert_eq!(format!("{:?}", parse_command(line)), format!("{:?}", parse_command(&joined)));
    }
    assert!(matches!(parse_command("heal\u{2003}Goblin 5"), ReplCommand::Heal(n, 5) if n == "Goblin"));
}
