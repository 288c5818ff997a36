use vstd::prelude::*;

verus! {

/// A spell's element. `Neutral` is no element at all.
#[derive(Debug, Clone, Copy, PartialEq, Eq, Structural)]
pub enum Element {
    Neutral,
    Flame,
    Water,
    Shock,
    Earth,
    Gust,
    Ice,
    Toxic,
}

/// A status a spell leaves. `Unaffected` is none at all.
#[derive(Debug, Clone, Copy, PartialEq, Eq, Structural)]
pub enum Status {
    Unaffected,
    Burned,
    Wet,
    Paralyzed,
    Poisoned,
    Sleep,
}

#[derive(Debug, Clone)]
pub struct Spell {
    pub name: String,
    pub damage_value: u8,
    pub damage_element: Element,
    pub block_value: u8,
    pub block_element: Element,
}

} // verus!
