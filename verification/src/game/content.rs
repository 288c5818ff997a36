//! The authored content a run is built from: spells, rules, enemies and
//! events. Parsing it is the shell's business; this is what it parses into.

use vstd::prelude::*;

use crate::game::combat::rules::Rules;
use crate::game::entity::EnemyKind;
use crate::game::event::MapEvent;
use crate::game::spell::Spell;

verus! {

/// How many spells a new run starts with.
pub const STARTING_SPELLS: usize = 3;

#[derive(Debug, Clone)]
pub struct Content {
    pub spells: Vec<Spell>,
    pub rules: Rules,
    pub enemies: Vec<EnemyKind>,
    pub events: Vec<MapEvent>,
}

impl Content {
    /// The spells a new run starts with: the first few authored.
    pub fn starting_spells(&self) -> (r: Vec<Spell>)
        ensures
            r@.len() == (if self.spells@.len() < STARTING_SPELLS {
                self.spells@.len()
            } else {
                STARTING_SPELLS as nat
            }),
            forall|i: int| 0 <= i < r@.len() ==> (#[trigger] r@[i])@ == self.spells@[i]@,
    {
        let n = if self.spells.len() < STARTING_SPELLS {
            self.spells.len()
        } else {
            STARTING_SPELLS
        };
        let mut r: Vec<Spell> = Vec::new();
        let mut i: usize = 0;
        while i < n
            invariant
                n <= self.spells@.len(),
                i <= n,
                r@.len() == i,
                forall|k: int| 0 <= k < i ==> (#[trigger] r@[k])@ == self.spells@[k]@,
            decreases n - i,
        {
            r.push(self.spells[i].copy());
            i = i + 1;
        }
        r
    }
}

} // verus!
