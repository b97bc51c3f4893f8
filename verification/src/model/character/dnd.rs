//! Characters under the fifth-edition rules of Dungeons & Dragons.

use super::{Action, CharacterSheet, Item};
use crate::text::{i32_to_decimal, int_decimal};
use rand::RngExt;
use std::collections::HashMap;
use vstd::prelude::*;

verus! {

/// The numbers on a character's sheet.
#[derive(Debug, Clone)]
pub struct DndStats {
    pub hp: i32,
    pub max_hp: i32,
    pub armour_class: i32,
    pub strength: i32,
    pub dexterity: i32,
    pub constitution: i32,
    pub intelligence: i32,
    pub wisdom: i32,
    pub charisma: i32,
}

/// A player character or monster.
#[derive(Debug, Clone)]
pub struct DndCharacter {
    pub name: String,
    pub stats: DndStats,
    pub inventory: HashMap<String, Item>,
    pub actions: HashMap<String, Action>,
}

/// The ability modifier of a score: half of its distance from 10, rounded down.
pub open spec fn ability_modifier(score: int) -> int {
    (score - 10) / 2
}

/// Hit points after taking `amount` damage: they fall by `amount`, but not below zero
/// when the damage is larger than what is left.
pub open spec fn hp_after_damage(hp: int, amount: int) -> int {
    if hp < amount {
        0
    } else {
        hp - amount
    }
}

/// Hit points after being healed by `amount`: they rise by `amount`, but not above the maximum.
pub open spec fn hp_after_heal(hp: int, max_hp: int, amount: int) -> int {
    if hp + amount > max_hp {
        max_hp
    } else {
        hp + amount
    }
}

/// Damage can be applied without overflowing `i32`.
pub open spec fn damage_fits(hp: int, amount: int) -> bool {
    hp < amount || hp - amount <= i32::MAX
}

/// Healing can be applied without overflowing `i32`.
pub open spec fn heal_fits(hp: int, amount: int) -> bool {
    i32::MIN <= hp + amount <= i32::MAX
}

impl DndCharacter {
    /// The same character with its hit points set to `hp`.
    pub open spec fn with_hp(self, hp: i32) -> DndCharacter {
        DndCharacter { stats: DndStats { hp, ..self.stats }, ..self }
    }

    /// The text shown for a character's health: current and maximum hit points.
    pub open spec fn health_text(self) -> Seq<char> {
        int_decimal(self.stats.hp as int) + seq!['/'] + int_decimal(self.stats.max_hp as int)
    }

    /// Takes `amount` damage; hit points never drop below zero.
    pub fn apply_damage(&mut self, amount: i32)
        requires
            damage_fits(old(self).stats.hp as int, amount as int),
        ensures
            *final(self) == old(self).with_hp(
                hp_after_damage(old(self).stats.hp as int, amount as int) as i32,
            ),
            final(self).stats.hp >= 0,
            amount <= old(self).stats.hp ==> old(self).stats.hp - final(self).stats.hp == amount,
            amount > old(self).stats.hp ==> final(self).stats.hp == 0,
    {
        proof {
            lemma_damage_takes_the_amount(old(self).stats.hp as int, amount as int);
        }
        if self.stats.hp < amount {
            self.stats.hp = 0;
        } else {
            self.stats.hp = self.stats.hp - amount;
        }
    }

    /// Heals `amount` hit points; they never rise above the maximum.
    pub fn apply_heal(&mut self, amount: i32)
        requires
            heal_fits(old(self).stats.hp as int, amount as int),
        ensures
            *final(self) == old(self).with_hp(
                hp_after_heal(
                    old(self).stats.hp as int,
                    old(self).stats.max_hp as int,
                    amount as int,
                ) as i32,
            ),
            final(self).stats.hp <= final(self).stats.max_hp,
            old(self).stats.hp + amount <= old(self).stats.max_hp ==> final(self).stats.hp
                - old(self).stats.hp == amount,
            old(self).stats.hp + amount > old(self).stats.max_hp ==> final(self).stats.hp
                == old(self).stats.max_hp,
    {
        proof {
            lemma_heal_adds_the_amount(
                old(self).stats.hp as int,
                old(self).stats.max_hp as int,
                amount as int,
            );
        }
        if self.stats.hp + amount > self.stats.max_hp {
            self.stats.hp = self.stats.max_hp;
        } else {
            self.stats.hp = self.stats.hp + amount;
        }
    }

    /// "hp/max_hp", both in decimal.
    pub fn health_to_string(&self) -> (s: String)
        ensures
            s@ == self.health_text(),
    {
        let mut s = i32_to_decimal(self.stats.hp);
        s.append("/");
        let max = i32_to_decimal(self.stats.max_hp);
        s.append(max.as_str());
        proof {
            reveal_strlit("/");
        }
        s
    }

    /// The initiative of this character when the d20 shows `roll`.
    pub fn initiative_with_roll(&self, roll: i32) -> (r: i32)
        requires
            i32::MIN <= roll + ability_modifier(self.stats.dexterity as int) <= i32::MAX,
        ensures
            r == roll + ability_modifier(self.stats.dexterity as int),
    {
        roll + get_modifier(self.stats.dexterity)
    }
}

/// The hit points that damage followed by healing of the same amount leave on a
/// character at full health: full health again.
pub proof fn lemma_heal_restores_damage(max_hp: int, amount: int)
    requires
        damage_fits(max_hp, amount),
        heal_fits(hp_after_damage(max_hp, amount), amount),
    ensures
        hp_after_heal(hp_after_damage(max_hp, amount), max_hp, amount) == max_hp,
{
}

/// Damage takes exactly its amount of hit points from a character that has that many;
/// a larger amount leaves none.
pub proof fn lemma_damage_takes_the_amount(hp: int, amount: int)
    ensures
        amount <= hp ==> hp - hp_after_damage(hp, amount) == amount,
        amount > hp ==> hp_after_damage(hp, amount) == 0,
        hp >= 0 ==> hp_after_damage(hp, amount) >= 0,
{
}

/// Taking two amounts of damage one after the other leaves the hit points that taking
/// both at once leaves.
pub proof fn lemma_damage_twice(hp: int, a: int, b: int)
    requires
        hp >= 0,
        a >= 0,
        b >= 0,
    ensures
        hp_after_damage(hp_after_damage(hp, a), b) == hp_after_damage(hp, a + b),
{
}

/// Healing adds exactly its amount when that stays within the maximum; otherwise it
/// brings the hit points to the maximum, never above it.
pub proof fn lemma_heal_adds_the_amount(hp: int, max_hp: int, amount: int)
    ensures
        hp + amount <= max_hp ==> hp_after_heal(hp, max_hp, amount) - hp == amount,
        hp + amount > max_hp ==> hp_after_heal(hp, max_hp, amount) == max_hp,
        hp_after_heal(hp, max_hp, amount) <= max_hp,
{
}

/// Healing two amounts one after the other leaves the hit points that healing both at
/// once leaves.
pub proof fn lemma_heal_twice(hp: int, max_hp: int, a: int, b: int)
    requires
        hp <= max_hp,
        a >= 0,
        b >= 0,
    ensures
        hp_after_heal(hp_after_heal(hp, max_hp, a), max_hp, b) == hp_after_heal(hp, max_hp, a + b),
{
}

impl CharacterSheet for DndCharacter {
    type Stats = DndStats;

    fn name(&self) -> (r: &str)
        ensures
            r@ == self.name@,
    {
        self.name.as_str()
    }

    fn stats(&self) -> (r: &DndStats)
        ensures
            *r == self.stats,
    {
        &self.stats
    }

    fn stats_mut(&mut self) -> (r: &mut DndStats)
        ensures
            *r == old(self).stats,
            *final(self) == (DndCharacter { stats: *final(r), ..*old(self) }),
    {
        &mut self.stats
    }

    fn inventory(&self) -> (r: &HashMap<String, Item>)
        ensures
            *r == self.inventory,
    {
        &self.inventory
    }

    fn actions(&self) -> (r: &HashMap<String, Action>)
        ensures
            *r == self.actions,
    {
        &self.actions
    }

    /// A d20 roll plus the dexterity modifier.
    fn initiative(&self) -> (r: i32)
        ensures
            1 <= r - ability_modifier(self.stats.dexterity as int) <= 20,
    {
        let roll = roll();
        self.initiative_with_roll(roll)
    }
}

/// The ability modifier of a score, `floor((score - 10) / 2)`.
pub fn get_modifier(stat: i32) -> (m: i32)
    ensures
        m == ability_modifier(stat as int),
{
    let d: i64 = stat as i64 - 10;
    if d >= 0 {
        (d / 2) as i32
    } else {
        let q: i64 = (-d + 1) / 2;
        assert(-q == d / 2) by (nonlinear_arith)
            requires
                d < 0,
                q == (-d + 1) / 2,
        ;
        (-q) as i32
    }
}

/// Rolls a twenty-sided die.
fn roll() -> (r: i32)
    ensures
        1 <= r <= 20,
{
    random_between(1, 20)
}

/// A random number from `low` to `high`, both included.
///
/// Calls `rand::rng()` and its `random_range(low..=high)`, which samples from the given
/// inclusive range and panics only when that range is empty, which `requires` rules out.
/// Nothing is claimed of the value beyond the range; `rand::rng()` panics only if the
/// operating system's random source fails while the thread's generator is first seeded.
#[verifier::external_body]
fn random_between(low: i32, high: i32) -> (r: i32)
    requires
        low <= high,
    ensures
        low <= r <= high,
{
    let mut rng = rand::rng();
    rng.random_range(low..=high)
}

} // verus!
