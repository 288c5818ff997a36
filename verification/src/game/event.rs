//! Map events: a prompt, some choices, and an outcome per choice.
//!
//! Outcomes compose from a small fixed vocabulary, so new events are pure data
//! and need no new code.

use rand::rngs::StdRng;
use vstd::prelude::*;

use crate::game::chance::choose_one;
use crate::game::entity::Player;
use crate::game::spell::{SPELL_SLOTS, Spell, lemma_unknown_indices, unknown_in, unknown_spells};
use crate::text::{decimal, decimal_view};

verus! {

#[derive(Debug, Clone)]
pub struct MapEvent {
    pub name: String,
    pub prompt: String,
    pub choices: Vec<Choice>,
}

#[derive(Debug, Clone)]
pub struct Choice {
    pub text: String,
    pub outcome: Outcome,
}

#[derive(Debug, Clone, Copy, PartialEq, Eq, Structural)]
pub enum Outcome {
    Nothing,
    Damage(u16),
    Heal(u16),
    RaiseMaxHp(u16),
    RaiseMaxMana(u8),
    /// Adds a random spell from the pool, if there is a free slot.
    GainSpell,
}

/// Two events read the same: same name, prompt, and choices.
pub open spec fn same_event(a: MapEvent, b: MapEvent) -> bool {
    &&& a.name@ == b.name@
    &&& a.prompt@ == b.prompt@
    &&& a.choices@.len() == b.choices@.len()
    &&& forall|i: int|
        0 <= i < a.choices@.len() ==> (#[trigger] a.choices@[i]).text@ == b.choices@[i].text@ && a.choices@[i].outcome
            == b.choices@[i].outcome
}

impl Choice {
    /// A copy that reads the same.
    pub fn copy(&self) -> (r: Choice)
        ensures
            r.text@ == self.text@,
            r.outcome == self.outcome,
    {
        Choice { text: self.text.clone(), outcome: self.outcome }
    }
}

impl MapEvent {
    /// A copy that reads the same.
    pub fn copy(&self) -> (r: MapEvent)
        ensures
            same_event(r, *self),
    {
        let n = self.choices.len();
        let mut choices: Vec<Choice> = Vec::new();
        let mut i: usize = 0;
        while i < n
            invariant
                n == self.choices@.len(),
                i <= n,
                choices@.len() == i,
                forall|k: int|
                    0 <= k < i ==> (#[trigger] choices@[k]).text@ == self.choices@[k].text@ && choices@[k].outcome
                        == self.choices@[k].outcome,
            decreases n - i,
        {
            choices.push(self.choices[i].copy());
            i = i + 1;
        }
        MapEvent { name: self.name.clone(), prompt: self.prompt.clone(), choices }
    }
}

/// Whether applying `outcome` to `p` stays within the player's numbers.
pub open spec fn outcome_fits(p: Player, outcome: Outcome) -> bool {
    match outcome {
        Outcome::Heal(n) => p.hp + n <= u16::MAX,
        Outcome::RaiseMaxHp(n) => p.max_hp + n <= u16::MAX && p.hp + n <= u16::MAX,
        _ => true,
    }
}

/// What gaining a spell did: nothing without a free slot or without a
/// spell the player does not know; otherwise one such spell of the pool was
/// added at the end.
pub open spec fn gained_spell(p0: Player, p1: Player, pool: Seq<Spell>, text: Seq<char>) -> bool {
    if p0.spells@.len() >= SPELL_SLOTS {
        p1 == p0 && text == "You have no free spell slots."@
    } else if unknown_in(pool, p0.spells@).len() == 0 {
        p1 == p0 && text == "There is nothing here you do not already know."@
    } else {
        exists|k: int|
            #![trigger unknown_in(pool, p0.spells@).contains(k)]
            {
                &&& unknown_in(pool, p0.spells@).contains(k)
                &&& p1 == (Player { spells: p1.spells, ..p0 })
                &&& p1.spells@.len() == p0.spells@.len() + 1
                &&& forall|i: int| 0 <= i < p0.spells@.len() ==> #[trigger] p1.spells@[i] == p0.spells@[i]
                &&& p1.spells@[p0.spells@.len() as int]@ == pool[k]@
                &&& text == "You learn "@ + pool[k].name@ + "."@
            }
    }
}

/// What applying `outcome` did to the player, and how it was described.
pub open spec fn outcome_effect(p0: Player, p1: Player, outcome: Outcome, pool: Seq<Spell>, text: Seq<char>) -> bool {
    match outcome {
        Outcome::Nothing => p1 == p0 && text == "You move on."@,
        Outcome::Damage(n) => {
            &&& p1 == (Player {
                hp: if p0.hp > n {
                    (p0.hp - n) as u16
                } else {
                    0
                },
                ..p0
            })
            &&& text == "You take "@ + decimal_view(n as nat) + " damage."@
        },
        Outcome::Heal(n) => {
            &&& p1 == (Player {
                hp: if p0.hp + n < p0.max_hp {
                    (p0.hp + n) as u16
                } else {
                    p0.max_hp
                },
                ..p0
            })
            &&& text == "You recover "@ + decimal_view(n as nat) + " health."@
        },
        Outcome::RaiseMaxHp(n) => {
            &&& p1 == (Player { max_hp: (p0.max_hp + n) as u16, hp: (p0.hp + n) as u16, ..p0 })
            &&& text == "Your maximum health rises by "@ + decimal_view(n as nat) + "."@
        },
        Outcome::RaiseMaxMana(n) => {
            let m = if p0.max_mana + n > 255 {
                255u8
            } else {
                (p0.max_mana + n) as u8
            };
            &&& p1 == (Player { max_mana: m, mana: m, ..p0 })
            &&& text == "Your maximum mana rises by "@ + decimal_view(n as nat) + "."@
        },
        Outcome::GainSpell => gained_spell(p0, p1, pool, text),
    }
}

/// Add a spell of `spell_pool` the player does not carry yet, if there is a
/// free slot and such a spell.
fn gain_spell(player: &mut Player, spell_pool: &[Spell], rng: &mut StdRng) -> (text: String)
    ensures
        gained_spell(*old(player), *final(player), spell_pool@, text@),
{
    if player.spells.len() >= SPELL_SLOTS {
        return String::from_str("You have no free spell slots.");
    }
    // Only offer spells the player does not already carry.
    let candidates = unknown_spells(spell_pool, player.spells.as_slice());
    let ghost p0 = *player;
    let ghost u = unknown_in(spell_pool@, p0.spells@);
    proof {
        lemma_unknown_indices(spell_pool@, p0.spells@, spell_pool@.len() as int);
    }
    match choose_one(rng, &candidates) {
        Some(k) => {
            let ghost c = choose|c: int| 0 <= c < candidates@.len() && candidates@[c] == k;
            proof {
                assert(u[c] == k as int);
                assert(u.contains(k as int));
            }
            let spell = spell_pool[k].copy();
            let text = String::from_str("You learn ").concat(spell.name.as_str()).concat(".");
            player.spells.push(spell);
            proof {
                assert(player.spells@[p0.spells@.len() as int]@ == spell_pool@[k as int]@);
                assert(gained_spell(p0, *player, spell_pool@, text@)) by {
                    assert(u.contains(k as int));
                    assert(p0.spells@.len() < SPELL_SLOTS);
                    assert(u.len() > 0);
                }
            }
            text
        },
        None => String::from_str("There is nothing here you do not already know."),
    }
}

/// Healing from an event restores `n` health, stopping at the maximum:
/// health never ends above the maximum, reaches `hp + n` when that fits
/// under it and the maximum when it does not, and nothing else about the
/// player changes.
pub proof fn lemma_heal_stops_at_max(p0: Player, p1: Player, n: u16, pool: Seq<Spell>, text: Seq<char>)
    requires
        outcome_effect(p0, p1, Outcome::Heal(n), pool, text),
    ensures
        p1.max_hp == p0.max_hp,
        p1.hp <= p1.max_hp,
        p0.hp + n <= p0.max_hp ==> p1.hp == p0.hp + n,
        p0.hp + n >= p0.max_hp ==> p1.hp == p0.max_hp,
        p1 == (Player { hp: p1.hp, ..p0 }),
{
}

/// Apply an outcome and describe what happened, for display.
pub fn apply_outcome(player: &mut Player, outcome: Outcome, spell_pool: &[Spell], rng: &mut StdRng) -> (text: String)
    requires
        outcome_fits(*old(player), outcome),
    ensures
        outcome_effect(*old(player), *final(player), outcome, spell_pool@, text@),
{
    match outcome {
        Outcome::Nothing => String::from_str("You move on."),
        Outcome::Damage(n) => {
            player.take_damage(n);
            String::from_str("You take ").concat(decimal(n as u64).as_str()).concat(" damage.")
        },
        Outcome::Heal(n) => {
            player.heal(n);
            String::from_str("You recover ").concat(decimal(n as u64).as_str()).concat(" health.")
        },
        Outcome::RaiseMaxHp(n) => {
            player.max_hp = player.max_hp + n;
            player.hp = player.hp + n;
            String::from_str("Your maximum health rises by ").concat(decimal(n as u64).as_str()).concat(".")
        },
        Outcome::RaiseMaxMana(n) => {
            player.max_mana = player.max_mana.saturating_add(n);
            player.refill_mana();
            String::from_str("Your maximum mana rises by ").concat(decimal(n as u64).as_str()).concat(".")
        },
        Outcome::GainSpell => gain_spell(player, spell_pool, rng),
    }
}

} // verus!
