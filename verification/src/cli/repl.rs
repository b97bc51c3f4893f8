//! Commands typed at the combat prompt, and what each one does to the session.

use crate::combat::initiative::{entries_view, EntryView, InitiativeEntry};
use crate::combat::roster::{
    first_with_name, has_name, lemma_first_with_name, names_distinct, names_of, Roster,
};
use crate::combat::session::{
    is_initiative_set, is_next_turn, is_start_with, is_unique_name, rolled_at, rolled_for,
    unordered_names, lemma_initiative_set_names_distinct,
    lemma_started_order_names_distinct, names_in_order, order_names_distinct, order_view, InCombat,
    Session, Setup,
};
use crate::model::character::dnd::{
    ability_modifier, damage_fits, heal_fits, hp_after_damage, hp_after_heal, DndCharacter,
};
use crate::model::character::CharacterSheet;
use crate::text::{
    join_words, lemma_words_respaced, parse_i32, split_whitespace, str_eq, str_to_i32, words,
};
use vstd::prelude::*;

verus! {

/// A command typed at the prompt.
#[derive(Debug)]
pub enum ReplCommand {
    Load(String),
    List,
    Show(String),
    Start,
    Order,
    Next,
    Quit,
    Unknown,
    SetInitiative(String, i32),
    Damage(String, i32),
    Heal(String, i32),
}

/// A command with its texts seen as sequences of chars.
pub enum CommandView {
    Load(Seq<char>),
    List,
    Show(Seq<char>),
    Start,
    Order,
    Next,
    Quit,
    Unknown,
    SetInitiative(Seq<char>, i32),
    Damage(Seq<char>, i32),
    Heal(Seq<char>, i32),
}

impl View for ReplCommand {
    type V = CommandView;

    open spec fn view(&self) -> CommandView {
        match self {
            ReplCommand::Load(p) => CommandView::Load(p@),
            ReplCommand::List => CommandView::List,
            ReplCommand::Show(n) => CommandView::Show(n@),
            ReplCommand::Start => CommandView::Start,
            ReplCommand::Order => CommandView::Order,
            ReplCommand::Next => CommandView::Next,
            ReplCommand::Quit => CommandView::Quit,
            ReplCommand::Unknown => CommandView::Unknown,
            ReplCommand::SetInitiative(n, v) => CommandView::SetInitiative(n@, *v),
            ReplCommand::Damage(n, v) => CommandView::Damage(n@, *v),
            ReplCommand::Heal(n, v) => CommandView::Heal(n@, *v),
        }
    }
}

/// A command that takes a name and a number: the number when the third word is one,
/// an unknown command otherwise.
pub open spec fn numbered_command(
    w: Seq<Seq<char>>,
    make: spec_fn(Seq<char>, i32) -> CommandView,
) -> CommandView {
    match parse_i32(w[2]) {
        Some(v) => make(w[1], v),
        None => CommandView::Unknown,
    }
}

/// The command that the words `w` of a line make.
pub open spec fn command_of_words(w: Seq<Seq<char>>) -> CommandView {
    if w.len() == 2 && w[0] == "show"@ {
        CommandView::Show(w[1])
    } else if w.len() == 2 && w[0] == "load"@ {
        CommandView::Load(w[1])
    } else if w.len() == 3 && w[0] == "initiative"@ {
        numbered_command(w, |n: Seq<char>, v: i32| CommandView::SetInitiative(n, v))
    } else if w.len() == 1 && w[0] == "start"@ {
        CommandView::Start
    } else if w.len() == 1 && w[0] == "list"@ {
        CommandView::List
    } else if w.len() == 1 && w[0] == "order"@ {
        CommandView::Order
    } else if w.len() == 1 && w[0] == "next"@ {
        CommandView::Next
    } else if w.len() == 3 && w[0] == "heal"@ {
        numbered_command(w, |n: Seq<char>, v: i32| CommandView::Heal(n, v))
    } else if w.len() == 3 && w[0] == "damage"@ {
        numbered_command(w, |n: Seq<char>, v: i32| CommandView::Damage(n, v))
    } else if w.len() == 1 && (w[0] == "quit"@ || w[0] == "exit"@) {
        CommandView::Quit
    } else {
        CommandView::Unknown
    }
}

/// Only the words of a line decide its command: white space before, between and after
/// them does not, so the line reads as the same command as its words written out with
/// one space between each two.
pub proof fn lemma_command_ignores_spacing(line: Seq<char>)
    ensures
        command_of_words(words(join_words(words(line)))) == command_of_words(words(line)),
{
    lemma_words_respaced(line);
}

/// Reads a line typed at the prompt as a command; words are separated by white space.
pub fn parse_command(input: &str) -> (cmd: ReplCommand)
    ensures
        cmd@ == command_of_words(words(input@)),
{
    let parts = split_whitespace(input);
    let ghost w = words(input@);
    assert(parts@.len() == w.len());
    let n = parts.len();
    if n == 0 {
        return ReplCommand::Unknown;
    }
    assert(parts@[0]@ == w[0]);
    let head = parts[0];
    if n == 2 {
        assert(parts@[1]@ == w[1]);
        if str_eq(head, "show") {
            return ReplCommand::Show(parts[1].to_owned());
        }
        if str_eq(head, "load") {
            return ReplCommand::Load(parts[1].to_owned());
        }
        return ReplCommand::Unknown;
    }
    if n == 3 {
        assert(parts@[1]@ == w[1]);
        assert(parts@[2]@ == w[2]);
        let is_initiative = str_eq(head, "initiative");
        let is_heal = str_eq(head, "heal");
        let is_damage = str_eq(head, "damage");
        if !is_initiative && !is_heal && !is_damage {
            return ReplCommand::Unknown;
        }
        let name = parts[1].to_owned();
        match str_to_i32(parts[2]) {
            None => {
                return ReplCommand::Unknown;
            },
            Some(v) => {
                if is_initiative {
                    return ReplCommand::SetInitiative(name, v);
                } else if is_heal {
                    return ReplCommand::Heal(name, v);
                } else {
                    return ReplCommand::Damage(name, v);
                }
            },
        }
    }
    if n == 1 {
        if str_eq(head, "start") {
            return ReplCommand::Start;
        }
        if str_eq(head, "list") {
            return ReplCommand::List;
        }
        if str_eq(head, "order") {
            return ReplCommand::Order;
        }
        if str_eq(head, "next") {
            return ReplCommand::Next;
        }
        if str_eq(head, "quit") || str_eq(head, "exit") {
            return ReplCommand::Quit;
        }
    }
    ReplCommand::Unknown
}

/// The session behind the prompt: still being set up, or in combat.
pub enum ActiveSession {
    Setup(Session<DndCharacter, Setup>),
    InCombat(Session<DndCharacter, InCombat>),
}

/// What the prompt answers to a command.
pub enum Reply {
    /// Nothing to say.
    Silent,
    /// The character file at this path is to be read and handed to `add_character`.
    LoadFile(String),
    /// Characters cannot be loaded once the combat has started.
    CannotLoadInCombat,
    /// No character has been loaded.
    NoCharacters,
    /// The names of the characters.
    Names(Vec<String>),
    /// The character of this name is to be shown.
    Show(String),
    /// No character has the name asked for.
    NoCharacterNamed(String),
    /// The turn order is shown only once the combat has started.
    StartCombatFirst,
    /// Turns, healing and damage come only once the combat has started.
    StartFirst,
    /// There is no initiative order.
    NoInitiativeOrder,
    /// The initiative order, and the position of the entry whose turn it is.
    Order(Vec<InitiativeEntry>, usize),
    /// The combat has started already.
    AlreadyStarted,
    /// A combat needs characters.
    NoCharactersLoaded,
    /// The combat has started with this initiative order.
    CombatStarted(Vec<InitiativeEntry>),
    /// It is this character's turn.
    Turn(String),
    /// The character was healed by the amount, and this is its health now.
    Healed(String, i32, String),
    /// The character took the damage, and this is its health now.
    Damaged(String, i32, String),
    /// No character has the name that healing or damage was meant for.
    NoCharacterWithName(String),
    /// The prompt ends.
    Quit,
    /// The line is not a command.
    Unknown,
}

/// Copies of the entries of a turn order.
fn copy_entries(entries: &Vec<InitiativeEntry>) -> (r: Vec<InitiativeEntry>)
    ensures
        entries_view(r@) == entries_view(entries@),
{
    let mut r: Vec<InitiativeEntry> = Vec::new();
    let mut i: usize = 0;
    while i < entries.len()
        invariant
            i <= entries@.len(),
            r@.len() == i,
            forall|j: int| 0 <= j < i ==> #[trigger] r@[j]@ == entries@[j]@,
        decreases entries@.len() - i,
    {
        let e = &entries[i];
        r.push(InitiativeEntry { name: e.name.clone(), initiative: e.initiative });
        i = i + 1;
    }
    assert(entries_view(r@) =~= entries_view(entries@));
    r
}

/// The character at the first position that goes by `name`, after `change`.
pub open spec fn changed_at(
    roster: Seq<(Seq<char>, DndCharacter)>,
    name: Seq<char>,
    i: int,
    hp: int,
) -> Seq<(Seq<char>, DndCharacter)> {
    roster.update(i, (name, roster[i].1.with_hp(hp as i32)))
}

/// `after` is `before` in combat with the hit points of the character named `name`
/// set by `new_hp` from its old ones, and `reply` names it, the amount and its health.
pub open spec fn is_hp_change(
    before: Session<DndCharacter, InCombat>,
    after: ActiveSession,
    reply: Reply,
    name: Seq<char>,
    amount: i32,
    new_hp: spec_fn(DndCharacter) -> int,
    healed: bool,
) -> bool {
    let roster = before.characters@;
    if has_name(roster, name) {
        exists|i: int|
            #![trigger roster[i]]
            first_with_name(roster, name, i) && (after matches ActiveSession::InCombat(t) && {
                &&& t.turn_order == before.turn_order
                &&& t.current_turn == before.current_turn
                &&& t.characters@ == changed_at(roster, name, i, new_hp(roster[i].1))
                &&& if healed {
                    reply matches Reply::Healed(n, a, h) && n@ == name && a == amount && h@
                        == roster[i].1.with_hp(new_hp(roster[i].1) as i32).health_text()
                } else {
                    reply matches Reply::Damaged(n, a, h) && n@ == name && a == amount && h@
                        == roster[i].1.with_hp(new_hp(roster[i].1) as i32).health_text()
                }
            })
    } else {
        &&& after == ActiveSession::InCombat(before)
        &&& reply matches Reply::NoCharacterWithName(n) && n@ == name
    }
}

impl ActiveSession {
    /// The characters of the session.
    pub open spec fn roster(self) -> Seq<(Seq<char>, DndCharacter)> {
        match self {
            ActiveSession::Setup(s) => s.characters@,
            ActiveSession::InCombat(s) => s.characters@,
        }
    }

    /// A command can be carried out without an arithmetic overflow: healing and damage
    /// must keep hit points within `i32`, and the turn counter must have room to move on.
    pub open spec fn step_ok(self, cmd: CommandView) -> bool {
        match self {
            ActiveSession::Setup(_) => true,
            ActiveSession::InCombat(s) => match cmd {
                CommandView::Heal(n, a) => forall|i: int|
                    first_with_name(s.characters@, n, i) ==> heal_fits(
                        #[trigger] s.characters@[i].1.stats.hp as int,
                        a as int,
                    ),
                CommandView::Damage(n, a) => forall|i: int|
                    first_with_name(s.characters@, n, i) ==> damage_fits(
                        #[trigger] s.characters@[i].1.stats.hp as int,
                        a as int,
                    ),
                CommandView::Next => order_view(s.turn_order).len() > 0
                    ==> s.current_turn < usize::MAX,
                _ => true,
            },
        }
    }

    /// A new session, being set up, with no characters.
    pub fn new() -> (r: Self)
        ensures
            r matches ActiveSession::Setup(s) && s.characters@.len() == 0 && s.turn_order is None
                && s.current_turn == 0,
    {
        ActiveSession::Setup(Session::new())
    }

    /// The characters of the session.
    pub fn characters(&self) -> (r: &Roster<DndCharacter>)
        ensures
            r@ == self.roster(),
    {
        match self {
            ActiveSession::Setup(s) => &s.characters,
            ActiveSession::InCombat(s) => &s.characters,
        }
    }

    /// Whether `cmd` can be carried out without an arithmetic overflow.
    pub fn can_step(&self, cmd: &ReplCommand) -> (b: bool)
        ensures
            b == self.step_ok(cmd@),
    {
        match self {
            ActiveSession::Setup(_) => true,
            ActiveSession::InCombat(s) => match cmd {
                ReplCommand::Heal(n, a) => match s.characters.get(n.as_str()) {
                    Some(c) => {
                        proof {
                            let i = choose|i: int|
                                first_with_name(s.characters@, n@, i) && s.characters@[i].1 == *c;
                            lemma_first_with_name(s.characters@, n@, i);
                        }
                        let hp = c.stats.hp as i64 + *a as i64;
                        i32::MIN as i64 <= hp && hp <= i32::MAX as i64
                    },
                    None => {
                        assert forall|i: int| first_with_name(s.characters@, n@, i) implies heal_fits(
                            #[trigger] s.characters@[i].1.stats.hp as int,
                            *a as int,
                        ) by {
                            lemma_first_with_name(s.characters@, n@, i);
                        }
                        true
                    },
                },
                ReplCommand::Damage(n, a) => match s.characters.get(n.as_str()) {
                    Some(c) => {
                        proof {
                            let i = choose|i: int|
                                first_with_name(s.characters@, n@, i) && s.characters@[i].1 == *c;
                            lemma_first_with_name(s.characters@, n@, i);
                        }
                        c.stats.hp < *a || (c.stats.hp as i64 - *a as i64) <= i32::MAX as i64
                    },
                    None => {
                        assert forall|i: int| first_with_name(s.characters@, n@, i) implies damage_fits(
                            #[trigger] s.characters@[i].1.stats.hp as int,
                            *a as int,
                        ) by {
                            lemma_first_with_name(s.characters@, n@, i);
                        }
                        true
                    },
                },
                ReplCommand::Next => match &s.turn_order {
                    Some(o) => o.entries.len() == 0 || s.current_turn < usize::MAX,
                    None => true,
                },
                _ => true,
            },
        }
    }

    /// Adds a character read from a file under a name that no other character has,
    /// while the session is being set up, and gives that name; in combat nothing
    /// changes.
    pub fn add_character(&mut self, c: DndCharacter) -> (r: Option<String>)
        ensures
            match *old(self) {
                ActiveSession::Setup(s) => {
                    &&& names_distinct(final(self).roster())
                    &&& r matches Some(name) && is_unique_name(s.characters@, c.name@, name@)
                        && (*final(self) matches ActiveSession::Setup(t) && t.turn_order
                        == s.turn_order && t.current_turn == s.current_turn && t.characters@
                        == s.characters@.push((name@, c)))
                },
                ActiveSession::InCombat(_) => r is None && *final(self) == *old(self),
            },
    {
        match self {
            ActiveSession::Setup(s) => {
                let name = s.unique_name(c.name());
                let key = name.clone();
                let previous = s.characters.insert(key, c);
                proof {
                    if let Some(p) = previous {
                        let i = choose|i: int|
                            first_with_name(old(self).roster(), name@, i) && old(self).roster()[i].1 == p;
                        lemma_first_with_name(old(self).roster(), name@, i);
                    }
                }
                Some(name)
            },
            ActiveSession::InCombat(_) => None,
        }
    }

    /// Carries out `cmd`: the session it leaves and what the prompt answers.
    pub fn step(self, cmd: ReplCommand) -> (r: (ActiveSession, Reply))
        requires
            self.step_ok(cmd@),
        ensures
            is_step(self, cmd, r.0, r.1),
            cmd is List ==> r.0 == self && listed(r.1) == names_of(self.roster()) && (r.1 is NoCharacters
                <==> self.roster().len() == 0),
    {
        match cmd {
            ReplCommand::Load(path) => {
                let reply = match &self {
                    ActiveSession::Setup(_) => Reply::LoadFile(path),
                    ActiveSession::InCombat(_) => Reply::CannotLoadInCombat,
                };
                (self, reply)
            },
            ReplCommand::List => {
                let chars = self.characters();
                let reply = if chars.is_empty() {
                    Reply::NoCharacters
                } else {
                    Reply::Names(chars.names())
                };
                (self, reply)
            },
            ReplCommand::Show(name) => {
                let reply = if self.characters().contains_key(name.as_str()) {
                    Reply::Show(name)
                } else {
                    Reply::NoCharacterNamed(name)
                };
                (self, reply)
            },
            ReplCommand::Order => {
                let reply = match &self {
                    ActiveSession::Setup(_) => Reply::StartCombatFirst,
                    ActiveSession::InCombat(s) => match &s.turn_order {
                        None => Reply::NoInitiativeOrder,
                        Some(o) => Reply::Order(copy_entries(&o.entries), s.current_turn),
                    },
                };
                (self, reply)
            },
            ReplCommand::Start => match self {
                ActiveSession::InCombat(s) => (ActiveSession::InCombat(s), Reply::AlreadyStarted),
                ActiveSession::Setup(s) => {
                    if s.characters.is_empty() {
                        (ActiveSession::Setup(s), Reply::NoCharactersLoaded)
                    } else {
                        let ghost before = s;
                        let combat = s.start();
                        proof {
                            let rolls = choose|rolls: Seq<i32>|
                                is_start_with(before, combat, rolls) && rolled_for(
                                    before.characters@,
                                    order_view(before.turn_order),
                                    rolls,
                                );
                            lemma_rolled_in_d20_range(
                                before.characters@,
                                order_view(before.turn_order),
                                rolls,
                            );
                        }
                        let lines = match &combat.turn_order {
                            Some(o) => copy_entries(&o.entries),
                            None => Vec::new(),
                        };
                        (ActiveSession::InCombat(combat), Reply::CombatStarted(lines))
                    }
                },
            },
            ReplCommand::SetInitiative(name, value) => match self {
                ActiveSession::Setup(s) => {
                    let mut s = s;
                    s.set_initiative(name, value);
                    (ActiveSession::Setup(s), Reply::Silent)
                },
                ActiveSession::InCombat(s) => {
                    let mut s = s;
                    s.set_initiative(name, value);
                    (ActiveSession::InCombat(s), Reply::Silent)
                },
            },
            ReplCommand::Next => match self {
                ActiveSession::Setup(s) => (ActiveSession::Setup(s), Reply::StartFirst),
                ActiveSession::InCombat(s) => {
                    let mut s = s;
                    let reply = match s.next_turn() {
                        Some(name) => Reply::Turn(name.to_owned()),
                        None => Reply::NoInitiativeOrder,
                    };
                    (ActiveSession::InCombat(s), reply)
                },
            },
            ReplCommand::Heal(name, amount) => match self {
                ActiveSession::Setup(s) => (ActiveSession::Setup(s), Reply::StartFirst),
                ActiveSession::InCombat(s) => {
                    let mut s = s;
                    let ghost before = s;
                    let reply = match s.characters.get_mut(name.as_str()) {
                        Some(c) => {
                            proof {
                                let i = choose|i: int|
                                    first_with_name(before.characters@, name@, i)
                                        && before.characters@[i].1 == *c;
                                assert(heal_fits(before.characters@[i].1.stats.hp as int, amount as int));
                                lemma_first_with_name(before.characters@, name@, i);
                            }
                            c.apply_heal(amount);
                            let health = c.health_to_string();
                            Reply::Healed(name, amount, health)
                        },
                        None => Reply::NoCharacterWithName(name),
                    };
                    (ActiveSession::InCombat(s), reply)
                },
            },
            ReplCommand::Damage(name, amount) => match self {
                ActiveSession::Setup(s) => (ActiveSession::Setup(s), Reply::StartFirst),
                ActiveSession::InCombat(s) => {
                    let mut s = s;
                    let ghost before = s;
                    let reply = match s.characters.get_mut(name.as_str()) {
                        Some(c) => {
                            proof {
                                let i = choose|i: int|
                                    first_with_name(before.characters@, name@, i)
                                        && before.characters@[i].1 == *c;
                                assert(damage_fits(before.characters@[i].1.stats.hp as int, amount as int));
                                lemma_first_with_name(before.characters@, name@, i);
                            }
                            c.apply_damage(amount);
                            let health = c.health_to_string();
                            Reply::Damaged(name, amount, health)
                        },
                        None => Reply::NoCharacterWithName(name),
                    };
                    (ActiveSession::InCombat(s), reply)
                },
            },
            ReplCommand::Quit => (self, Reply::Quit),
            ReplCommand::Unknown => (self, Reply::Unknown),
        }
    }
}

/// `rolls[j]` is a d20 roll plus the dexterity modifier of a character of `roster` that
/// goes by `names[j]`.
pub open spec fn d20_roll_at(
    roster: Seq<(Seq<char>, DndCharacter)>,
    names: Seq<Seq<char>>,
    rolls: Seq<i32>,
    j: int,
) -> bool {
    exists|i: int|
        0 <= i < roster.len() && #[trigger] names_of(roster)[i] == names[j] && 1 <= rolls[j]
            - ability_modifier(roster[i].1.stats.dexterity as int) <= 20
}

/// Each of `rolls` is a d20 roll plus the dexterity modifier of the character it belongs
/// to: the `j`-th belongs to the `j`-th character without an entry in `order`.
pub open spec fn d20_rolls(
    roster: Seq<(Seq<char>, DndCharacter)>,
    order: Seq<EntryView>,
    rolls: Seq<i32>,
) -> bool {
    forall|j: int|
        0 <= j < rolls.len() ==> #[trigger] d20_roll_at(
            roster,
            unordered_names(roster, order),
            rolls,
            j,
        )
}

/// What `initiative` returns for a D&D character is a d20 roll plus its dexterity modifier.
proof fn lemma_rolled_in_d20_range(
    roster: Seq<(Seq<char>, DndCharacter)>,
    order: Seq<EntryView>,
    rolls: Seq<i32>,
)
    requires
        rolled_for(roster, order, rolls),
    ensures
        d20_rolls(roster, order, rolls),
{
    let un = unordered_names(roster, order);
    assert forall|j: int| 0 <= j < rolls.len() implies #[trigger] d20_roll_at(roster, un, rolls, j) by {
        assert(rolled_at(roster, un, rolls, j));
        let i = choose|i: int|
            0 <= i < roster.len() && #[trigger] names_of(roster)[i] == un[j] && call_ensures(
                <DndCharacter as CharacterSheet>::initiative,
                (&roster[i].1,),
                rolls[j],
            );
        assert(1 <= rolls[j] - ability_modifier(roster[i].1.stats.dexterity as int) <= 20);
    }
}

/// `after` and `reply` are what carrying out `cmd` on `before` gives.
pub open spec fn is_step(before: ActiveSession, cmd: ReplCommand, after: ActiveSession, reply: Reply) -> bool {
    match cmd {
        ReplCommand::Load(p) => {
            &&& after == before
            &&& reply == if before is Setup {
                Reply::LoadFile(p)
            } else {
                Reply::CannotLoadInCombat
            }
        },
        ReplCommand::List => {
            &&& after == before
            &&& if before.roster().len() == 0 {
                reply is NoCharacters
            } else {
                reply matches Reply::Names(v) && v@.map_values(|x: String| x@) == names_of(
                    before.roster(),
                )
            }
        },
        ReplCommand::Show(n) => {
            &&& after == before
            &&& reply == if has_name(before.roster(), n@) {
                Reply::Show(n)
            } else {
                Reply::NoCharacterNamed(n)
            }
        },
        ReplCommand::Order => {
            &&& after == before
            &&& match before {
                ActiveSession::Setup(_) => reply is StartCombatFirst,
                ActiveSession::InCombat(s) => match s.turn_order {
                    None => reply is NoInitiativeOrder,
                    Some(o) => reply matches Reply::Order(v, c) && entries_view(v@) == o@ && c
                        == s.current_turn,
                },
            }
        },
        ReplCommand::Start => match before {
            ActiveSession::InCombat(_) => after == before && reply is AlreadyStarted,
            ActiveSession::Setup(s) => if s.characters@.len() == 0 {
                after == before && reply is NoCharactersLoaded
            } else {
                &&& after matches ActiveSession::InCombat(t)
                &&& exists|rolls: Seq<i32>|
                    {
                        &&& is_start_with(s, after->InCombat_0, rolls)
                        &&& rolled_for(s.characters@, order_view(s.turn_order), rolls)
                        &&& d20_rolls(s.characters@, order_view(s.turn_order), rolls)
                    }
                &&& after->InCombat_0.turn_order matches Some(o)
                &&& reply matches Reply::CombatStarted(v) && entries_view(v@) == o@
            },
        },
        ReplCommand::SetInitiative(n, v) => {
            &&& reply is Silent
            &&& match before {
                ActiveSession::Setup(s) => after matches ActiveSession::Setup(t)
                    && is_initiative_set(s, t, n@, v),
                ActiveSession::InCombat(s) => after matches ActiveSession::InCombat(t)
                    && is_initiative_set(s, t, n@, v),
            }
        },
        ReplCommand::Next => match before {
            ActiveSession::Setup(_) => after == before && reply is StartFirst,
            ActiveSession::InCombat(s) => {
                &&& after matches ActiveSession::InCombat(t)
                &&& reply is Turn || reply is NoInitiativeOrder
                &&& is_next_turn(
                    s,
                    after->InCombat_0,
                    match reply {
                        Reply::Turn(n) => Some(n@),
                        _ => None,
                    },
                )
            },
        },
        ReplCommand::Heal(n, a) => match before {
            ActiveSession::Setup(_) => after == before && reply is StartFirst,
            ActiveSession::InCombat(s) => is_hp_change(
                s,
                after,
                reply,
                n@,
                a,
                |c: DndCharacter| hp_after_heal(c.stats.hp as int, c.stats.max_hp as int, a as int),
                true,
            ),
        },
        ReplCommand::Damage(n, a) => match before {
            ActiveSession::Setup(_) => after == before && reply is StartFirst,
            ActiveSession::InCombat(s) => is_hp_change(
                s,
                after,
                reply,
                n@,
                a,
                |c: DndCharacter| hp_after_damage(c.stats.hp as int, a as int),
                false,
            ),
        },
        ReplCommand::Quit => after == before && reply is Quit,
        ReplCommand::Unknown => after == before && reply is Unknown,
    }
}

impl ActiveSession {
    /// No two characters share a name, no two entries of the turn order share a name,
    /// and in combat the turn is at an entry of the order, or at the start.
    pub open spec fn wf(self) -> bool {
        match self {
            ActiveSession::Setup(s) => {
                &&& names_distinct(s.characters@)
                &&& order_names_distinct(order_view(s.turn_order))
            },
            ActiveSession::InCombat(s) => {
                &&& names_distinct(s.characters@)
                &&& order_names_distinct(order_view(s.turn_order))
                &&& s.current_turn == 0 || s.current_turn < order_view(s.turn_order).len()
            },
        }
    }
}

/// The names that a reply lists: those of `Names`, none for any other reply.
pub open spec fn listed(r: Reply) -> Seq<Seq<char>> {
    match r {
        Reply::Names(v) => v@.map_values(|x: String| x@),
        _ => Seq::empty(),
    }
}

/// "list" names every character, in roster order, in either phase, and changes
/// nothing; it answers that there are none only when no character is loaded.
pub proof fn lemma_list_names_every_character(before: ActiveSession, after: ActiveSession, reply: Reply)
    requires
        is_step(before, ReplCommand::List, after, reply),
    ensures
        after == before,
        listed(reply) == names_of(before.roster()),
        reply is NoCharacters <==> before.roster().len() == 0,
        before.roster().len() > 0 ==> reply is Names,
{
    if before.roster().len() == 0 {
        assert(names_of(before.roster()) =~= Seq::<Seq<char>>::empty());
    }
}

/// Starting a combat changes nothing that "list" answers: the same characters are
/// named before and after, in the same order.
pub proof fn lemma_list_unchanged_by_start(
    s0: ActiveSession,
    s1: ActiveSession,
    started: Reply,
    a0: ActiveSession,
    l0: Reply,
    a1: ActiveSession,
    l1: Reply,
)
    requires
        is_step(s0, ReplCommand::Start, s1, started),
        is_step(s0, ReplCommand::List, a0, l0),
        is_step(s1, ReplCommand::List, a1, l1),
    ensures
        listed(l0) == listed(l1),
        l0 is NoCharacters <==> l1 is NoCharacters,
{
    lemma_list_names_every_character(s0, a0, l0);
    lemma_list_names_every_character(s1, a1, l1);
    if let ActiveSession::Setup(s) = s0 {
        if s.characters@.len() > 0 {
            let rolls = choose|rolls: Seq<i32>|
                {
                    &&& is_start_with(s, s1->InCombat_0, rolls)
                    &&& rolled_for(s.characters@, order_view(s.turn_order), rolls)
                    &&& d20_rolls(s.characters@, order_view(s.turn_order), rolls)
                };
            assert(s1.roster() == s0.roster());
        }
    }
}

/// In a well-formed session the turn can always move on.
pub proof fn lemma_wf_next_is_ok(a: ActiveSession)
    requires
        a.wf(),
    ensures
        a.step_ok(CommandView::Next),
{
    if let ActiveSession::InCombat(s) = a {
        if order_view(s.turn_order).len() > 0 && s.current_turn != 0 {
            assert(s.current_turn < order_view(s.turn_order).len());
            assert(order_view(s.turn_order).len() <= usize::MAX) by {
                broadcast use vstd::std_specs::vec::axiom_spec_len;

                let o = s.turn_order->Some_0;
                assert(o@.len() == o.entries@.len());
                assert(o.entries.len() == o.entries@.len());
            }
        }
    }
}

/// A new session is well formed.
pub proof fn lemma_new_session_wf(a: ActiveSession)
    requires
        a matches ActiveSession::Setup(s) && s.characters@.len() == 0 && s.turn_order is None,
    ensures
        a.wf(),
{
    assert(names_in_order(Seq::<EntryView>::empty()) =~= Seq::<Seq<char>>::empty());
}

/// Loading a character keeps a session well formed.
pub proof fn lemma_add_character_keeps_wf(before: ActiveSession, after: ActiveSession, c: DndCharacter, name: Seq<char>)
    requires
        before.wf(),
        before matches ActiveSession::Setup(s) && is_unique_name(s.characters@, c.name@, name)
            && (after matches ActiveSession::Setup(t) && t.turn_order == s.turn_order && t.characters@
            == s.characters@.push((name, c))),
    ensures
        after.wf(),
{
    let s = before->Setup_0;
    let t = after->Setup_0;
    assert forall|i: int, j: int|
        0 <= i < t.characters@.len() && 0 <= j < t.characters@.len() && i != j implies t.characters@[i].0
        != t.characters@[j].0 by {
        if i == s.characters@.len() as int || j == s.characters@.len() as int {
            let k = if i == s.characters@.len() as int { j } else { i };
            assert(names_of(s.characters@)[k] == s.characters@[k].0);
        }
    }
}

/// Carrying out any command keeps a session well formed: no name ever stands for two
/// characters or two entries of the turn order, and the turn stays on an entry.
pub proof fn lemma_step_keeps_wf(
    before: ActiveSession,
    cmd: ReplCommand,
    after: ActiveSession,
    reply: Reply,
)
    requires
        before.wf(),
        is_step(before, cmd, after, reply),
    ensures
        after.wf(),
{
    match cmd {
        ReplCommand::Start => {
            if let ActiveSession::Setup(s) = before {
                if s.characters@.len() > 0 {
                    let t = after->InCombat_0;
                    let rolls = choose|rolls: Seq<i32>| is_start_with(s, t, rolls);
                    let o = t.turn_order->Some_0;
                    assert(names_of(s.characters@).no_duplicates()) by {
                        assert forall|i: int, j: int|
                            0 <= i < names_of(s.characters@).len() && 0 <= j < names_of(
                                s.characters@,
                            ).len() && i != j implies names_of(s.characters@)[i] != names_of(
                            s.characters@,
                        )[j] by {}
                    }
                    lemma_started_order_names_distinct(
                        s.characters@,
                        order_view(s.turn_order),
                        rolls,
                        o@,
                    );
                }
            }
        },
        ReplCommand::SetInitiative(n, v) => {
            match (before, after) {
                (ActiveSession::Setup(s), ActiveSession::Setup(t)) => {
                    lemma_set_keeps_order_wf(s, t, n@, v);
                },
                (ActiveSession::InCombat(s), ActiveSession::InCombat(t)) => {
                    lemma_set_keeps_order_wf(s, t, n@, v);
                },
                _ => {},
            }
        },
        ReplCommand::Next => {
            if let ActiveSession::InCombat(s) = before {
                let len = order_view(s.turn_order).len() as int;
                if len > 0 {
                    let t = after->InCombat_0;
                    vstd::arithmetic::div_mod::lemma_mod_bound(s.current_turn + 1, len);
                    assert(t.current_turn < len);
                }
            }
        },
        ReplCommand::Heal(n, a) => {
            if let ActiveSession::InCombat(s) = before {
                lemma_hp_change_keeps_names(
                    s,
                    after,
                    reply,
                    n@,
                    a,
                    |c: DndCharacter| hp_after_heal(c.stats.hp as int, c.stats.max_hp as int, a as int),
                    true,
                );
            }
        },
        ReplCommand::Damage(n, a) => {
            if let ActiveSession::InCombat(s) = before {
                lemma_hp_change_keeps_names(
                    s,
                    after,
                    reply,
                    n@,
                    a,
                    |c: DndCharacter| hp_after_damage(c.stats.hp as int, a as int),
                    false,
                );
            }
        },
        _ => {},
    }
}

proof fn lemma_set_keeps_order_wf<P>(
    s: Session<DndCharacter, P>,
    t: Session<DndCharacter, P>,
    name: Seq<char>,
    value: i32,
)
    requires
        is_initiative_set(s, t, name, value),
        order_names_distinct(order_view(s.turn_order)),
    ensures
        order_names_distinct(order_view(t.turn_order)),
        order_view(t.turn_order).len() >= order_view(s.turn_order).len(),
        order_view(t.turn_order).len() >= 1,
{
    let o = t.turn_order->Some_0;
    let w = crate::combat::session::with_initiative(order_view(s.turn_order), name, value);
    lemma_initiative_set_names_distinct(order_view(s.turn_order), name, value, o@);
    vstd::seq_lib::to_multiset_len(o@);
    vstd::seq_lib::to_multiset_len(w);
    if crate::combat::session::in_order(order_view(s.turn_order), name) {
        crate::combat::session::lemma_first_entry_exists(order_view(s.turn_order), name);
    }
    assert(w.len() >= order_view(s.turn_order).len());
}

proof fn lemma_hp_change_keeps_names(
    s: Session<DndCharacter, InCombat>,
    after: ActiveSession,
    reply: Reply,
    name: Seq<char>,
    amount: i32,
    new_hp: spec_fn(DndCharacter) -> int,
    healed: bool,
)
    requires
        ActiveSession::InCombat(s).wf(),
        is_hp_change(s, after, reply, name, amount, new_hp, healed),
    ensures
        after.wf(),
{
    let roster = s.characters@;
    if has_name(roster, name) {
        let i = choose|i: int|
            #![trigger roster[i]]
            first_with_name(roster, name, i) && (after matches ActiveSession::InCombat(t) && {
                &&& t.turn_order == s.turn_order
                &&& t.current_turn == s.current_turn
                &&& t.characters@ == changed_at(roster, name, i, new_hp(roster[i].1))
                &&& if healed {
                    reply matches Reply::Healed(n, a, h) && n@ == name && a == amount && h@
                        == roster[i].1.with_hp(new_hp(roster[i].1) as i32).health_text()
                } else {
                    reply matches Reply::Damaged(n, a, h) && n@ == name && a == amount && h@
                        == roster[i].1.with_hp(new_hp(roster[i].1) as i32).health_text()
                }
            });
        let t = after->InCombat_0;
        assert forall|a: int, b: int|
            0 <= a < t.characters@.len() && 0 <= b < t.characters@.len() && a != b implies t.characters@[a].0
            != t.characters@[b].0 by {
            assert(t.characters@[a].0 == roster[a].0);
            assert(t.characters@[b].0 == roster[b].0);
        }
    }
}

} // verus!
