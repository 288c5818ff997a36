use vstd::prelude::*;

use crate::model::{Enemy, Player};

verus! {

#[derive(Debug, Clone, Copy, PartialEq, Eq, Structural)]
pub enum TurnType {
    Player,
    Enemy,
}

pub struct Fight {
    pub enemies: Vec<Enemy>,
    pub turn: TurnType,
    pub turn_count: u8,
}

impl Fight {
    /// A fight against `enemies`, the player to move first.
    pub fn new(enemies: Vec<Enemy>) -> (r: Self)
        ensures
            r.enemies@ == enemies@,
            r.turn == TurnType::Player,
            r.turn_count == 0,
    {
        Fight { enemies, turn: TurnType::Player, turn_count: 0 }
    }
}

pub struct FightFactory {}

pub struct FightManager {
    pub player: Player,
    pub fight: Fight,
}

impl FightManager {
    pub fn new(player: Player, fight: Fight) -> (r: Self)
        ensures
            r.player == player,
            r.fight == fight,
    {
        FightManager { player, fight }
    }
}

} // verus!
