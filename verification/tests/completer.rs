use combathelper::cli::completer::{select_paths, CommandCompleter, Completion, CompletionPlan};

fn values(plan: CompletionPlan) -> Vec<(String, usize, usize, bool)> {
    match plan {
        CompletionPlan::Suggestions(v) => v
            .into_iter()
            .map(|c: Completion| (c.value, c.start, c.end, c.append_whitespace))
            .collect(),
        CompletionPlan::Paths { .. } => panic!("expected suggestions"),
    }
}

fn completer() -> CommandCompleter {
    CommandCompleter { names: vec!["Goblin".to_string(), "Aragorn".to_string(), "goblin_2".to_string()] }
}

#[test]
fn empty_line_offers_every_command() {
    let got = values(completer().complete("", 0));
    let names: Vec<String> = got.iter().map(|c| c.0.clone()).collect();
    assert_eq!(names, vec!["load", "list", "show", "initiative", "order", "next", "quit", "exit"]);
    assert!(got.iter().all(|c| c.1 == 0 && c.2 == 0 && c.3));
}

#[test]
fn first_word_completes_commands() {
    let got = values(completer().complete("l", 1));
    assert_eq!(got, vec![("load".to_string(), 0, 1, true), ("list".to_string(), 0, 1, true)]);
    assert!(values(completer().complete("start ", 6)).is_empty());
}

#[test]
fn names_complete_ignoring_case() {
    let got = values(completer().complete("show gob", 8));
    assert_eq!(got, vec![("Goblin".to_string(), 5, 8, true), ("goblin_2".to_string(), 5, 8, true)]);
    let got = values(completer().complete("initiative ", 11));
    assert!(got.is_empty());
    let got = values(completer().complete("initiative Gob ", 15));
    assert_eq!(got.len(), 3);
    assert!(got.iter().all(|c| c.1 == 15 && c.2 == 15));
    let got = values(completer().complete("show Är", 8));
    assert!(got.is_empty());
    let got = values(completer().complete("show x ", 7));
    assert_eq!(got.len(), 3);
    assert!(got.iter().all(|c| c.1 == 7));
}

#[test]
fn load_asks_for_paths() {
    match completer().complete("load chars/gob", 14) {
        CompletionPlan::Paths { dir, file_prefix, start, end } => {
            assert_eq!(dir, "chars/");
            assert_eq!(file_prefix, "gob");
            assert_eq!(start, 5);
            assert_eq!(end, 14);
        }
        _ => panic!("expected paths"),
    }
    match completer().complete("load gob", 8) {
        CompletionPlan::Paths { dir, file_prefix, start, .. } => {
            assert_eq!(dir, ".");
            assert_eq!(file_prefix, "gob");
            assert_eq!(start, 5);
        }
        _ => panic!("expected paths"),
    }
}

#[test]
fn other_lines_offer_nothing() {
    assert!(values(completer().complete("heal Gob 3", 10)).is_empty());
    assert!(values(completer().complete("order x", 7)).is_empty());
}

#[test]
fn paths_are_filtered_by_file_name() {
    let entries = vec![
        ("goblin.json".to_string(), "chars/goblin.json".to_string()),
        ("orc.json".to_string(), "chars/orc.json".to_string()),
        ("gnoll.json".to_string(), "chars/gnoll.json".to_string()),
    ];
    let got: Vec<(String, usize, usize, bool)> = select_paths(&entries, "g", 5, 11)
        .into_iter()
        .map(|c| (c.value, c.start, c.end, c.append_whitespace))
        .collect();
    assert_eq!(
        got,
        vec![
            ("chars/goblin.json".to_string(), 5, 11, false),
            ("chars/gnoll.json".to_string(), 5, 11, false)
        ]
    );
}
