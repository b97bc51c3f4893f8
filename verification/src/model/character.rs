//! Characters of a role-playing game, independent of the rule system.

use std::collections::HashMap;
use vstd::prelude::*;

pub mod dnd;

verus! {

/// Something a character carries.
#[derive(Debug, Clone)]
pub struct Item {
    pub name: String,
    pub quantity: u32,
    pub description: Option<String>,
}

/// Something a character can do on its turn.
#[derive(Debug, Clone)]
pub struct Action {
    pub name: String,
    pub description: String,
    pub damage: Option<String>,
    pub recharge: Option<String>,
}

/// What every character sheet offers, whatever the rule system.
pub trait CharacterSheet {
    type Stats;

    fn name(&self) -> &str;

    fn stats(&self) -> &Self::Stats;

    fn stats_mut(&mut self) -> &mut Self::Stats;

    fn inventory(&self) -> &HashMap<String, Item>;

    fn actions(&self) -> &HashMap<String, Action>;

    /// The character's initiative for a new combat.
    fn initiative(&self) -> i32;
}

} // verus!
