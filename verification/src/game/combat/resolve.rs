//! The damage pipeline. Deterministic -- no randomness anywhere in combat.

use vstd::prelude::*;

use crate::game::combat::incantation::{ResolvedSpell, ResolvedView};
use crate::game::element::Element;
use crate::game::entity::Enemy;
use crate::game::status::Status;

verus! {

/// Damage a spell deals to a target: doubled (saturating) for Shock against
/// a Wet target, then reduced by armor (not below zero) unless it pierces.
pub open spec fn damage_spec(target: Enemy, spell: ResolvedView) -> u16 {
    let d = if spell.element == Element::Shock && target.statuses.active(Status::Wet) {
        if spell.damage * 2 > u16::MAX {
            u16::MAX
        } else {
            (spell.damage * 2) as u16
        }
    } else {
        spell.damage
    };
    if spell.pierce {
        d
    } else if d > target.armor {
        (d - target.armor) as u16
    } else {
        0
    }
}

/// Damage an enemy deals: its power, halved (rounding down) while Blind.
pub open spec fn enemy_damage_spec(enemy: Enemy) -> u16 {
    if enemy.statuses.active(Status::Blind) {
        (enemy.power / 2) as u16
    } else {
        enemy.power
    }
}

/// Damage a spell deals to one target, after the target's own state is
/// accounted for.
pub fn damage_against(target: &Enemy, spell: &ResolvedSpell) -> (r: u16)
    ensures
        r == damage_spec(*target, spell@),
{
    let mut damage = spell.damage;

    // Water conducts: Shock against a soaked target hits twice as hard.
    if spell.element == Element::Shock && target.statuses.has(Status::Wet) {
        damage = if damage > u16::MAX / 2 {
            u16::MAX
        } else {
            damage * 2
        };
    }

    // Armor is what makes `pierce` worth building for.
    if !spell.pierce {
        damage = damage.saturating_sub(target.armor);
    }

    damage
}

/// Damage an enemy deals, after its own statuses are accounted for.
pub fn enemy_damage(enemy: &Enemy) -> (r: u16)
    ensures
        r == enemy_damage_spec(*enemy),
{
    let mut damage = enemy.power;
    if enemy.statuses.has(Status::Blind) {
        damage = damage / 2;
    }
    damage
}

} // verus!
