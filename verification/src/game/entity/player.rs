use vstd::prelude::*;

use crate::game::spell::{SPELL_SLOTS, Spell};
use crate::game::status::{ActiveStatus, Statuses};

verus! {

/// The player. There is exactly one of these in a run.
#[derive(Debug, Clone)]
pub struct Player {
    pub hp: u16,
    pub max_hp: u16,
    pub mana: u8,
    pub max_mana: u8,
    /// Equipped component spells, at most [`SPELL_SLOTS`].
    pub spells: Vec<Spell>,
    pub statuses: Statuses,
    pub gold: u32,
}

/// The health a new player starts with.
pub const START_HP: u16 = 20;

/// The mana a new player starts with.
pub const START_MANA: u8 = 5;

impl Player {
    pub open spec fn wf(self) -> bool {
        self.statuses.wf()
    }

    /// Whether some equipped spell costs no more than the mana left.
    pub open spec fn affords_some(self) -> bool {
        exists|i: int| 0 <= i < self.spells@.len() && #[trigger] self.spells@[i].mana_cost <= self.mana
    }

    pub fn new(spells: Vec<Spell>) -> (r: Self)
        ensures
            r.wf(),
            r.hp == START_HP && r.max_hp == START_HP,
            r.mana == START_MANA && r.max_mana == START_MANA,
            r.spells@ == spells@.take(
                if spells@.len() < SPELL_SLOTS {
                    spells@.len() as int
                } else {
                    SPELL_SLOTS as int
                },
            ),
            r.statuses@ == Seq::<ActiveStatus>::empty(),
            r.gold == 0,
    {
        let mut spells = spells;
        spells.truncate(SPELL_SLOTS);
        proof {
            if spells@.len() < SPELL_SLOTS {
                assert(spells@ =~= spells@.take(spells@.len() as int));
            }
        }
        Player {
            hp: START_HP,
            max_hp: START_HP,
            mana: START_MANA,
            max_mana: START_MANA,
            spells,
            statuses: Statuses::new(),
            gold: 0,
        }
    }

    pub fn is_alive(&self) -> (r: bool)
        ensures
            r == (self.hp > 0),
    {
        self.hp > 0
    }

    /// Mana is a per-turn budget, not a run-long resource.
    pub fn refill_mana(&mut self)
        ensures
            *final(self) == (Player { mana: old(self).max_mana, ..*old(self) }),
    {
        self.mana = self.max_mana;
    }

    pub fn spell(&self, slot: usize) -> (r: Option<&Spell>)
        ensures
            slot < self.spells@.len() ==> r == Some(&self.spells@[slot as int]),
            slot >= self.spells@.len() ==> r is None,
    {
        if slot < self.spells.len() {
            Some(&self.spells[slot])
        } else {
            None
        }
    }

    /// Damage saturates at zero rather than underflowing.
    pub fn take_damage(&mut self, amount: u16)
        ensures
            *final(self) == (Player {
                hp: if old(self).hp > amount {
                    (old(self).hp - amount) as u16
                } else {
                    0
                },
                ..*old(self)
            }),
    {
        self.hp = self.hp.saturating_sub(amount);
    }

    /// Healing never exceeds the maximum.
    pub fn heal(&mut self, amount: u16)
        requires
            old(self).hp + amount <= u16::MAX,
        ensures
            *final(self) == (Player {
                hp: if old(self).hp + amount < old(self).max_hp {
                    (old(self).hp + amount) as u16
                } else {
                    old(self).max_hp
                },
                ..*old(self)
            }),
    {
        let sum = self.hp + amount;
        self.hp = if sum < self.max_hp {
            sum
        } else {
            self.max_hp
        };
    }

    /// Whether the player can still afford anything at all.
    pub fn can_afford_anything(&self) -> (r: bool)
        ensures
            r == self.affords_some(),
    {
        let n = self.spells.len();
        let mut i: usize = 0;
        while i < n
            invariant
                n == self.spells@.len(),
                i <= n,
                forall|j: int| 0 <= j < i ==> #[trigger] self.spells@[j].mana_cost > self.mana,
            decreases n - i,
        {
            if self.spells[i].mana_cost <= self.mana {
                return true;
            }
            i = i + 1;
        }
        false
    }
}

} // verus!
