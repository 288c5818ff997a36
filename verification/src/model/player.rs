use vstd::prelude::*;

use crate::model::Spell;

verus! {

#[derive(Clone)]
pub struct Player {
    health: u8,
    max_health: u8,
    magic: u8,
    max_magic: u8,
    spells: Vec<Spell>,
}

impl Player {
    pub closed spec fn health_spec(&self) -> u8 {
        self.health
    }

    pub closed spec fn max_health_spec(&self) -> u8 {
        self.max_health
    }

    pub closed spec fn magic_spec(&self) -> u8 {
        self.magic
    }

    pub closed spec fn max_magic_spec(&self) -> u8 {
        self.max_magic
    }

    pub closed spec fn spells_spec(&self) -> Seq<Spell> {
        self.spells@
    }

    /// A player at full health (10) and magic (5), with no spells yet.
    pub fn new() -> (r: Self)
        ensures
            r.health_spec() == 10,
            r.max_health_spec() == 10,
            r.magic_spec() == 5,
            r.max_magic_spec() == 5,
            r.spells_spec().len() == 0,
    {
        Player { health: 10, max_health: 10, magic: 5, max_magic: 5, spells: Vec::new() }
    }
}

} // verus!
