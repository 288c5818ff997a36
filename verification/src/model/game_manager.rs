use std::collections::HashMap;
use vstd::prelude::*;

use crate::model::{Enemy, Player, Spell};

verus! {

pub struct GameManager {
    player: Player,
    spells: HashMap<String, Spell>,
    enemies: HashMap<String, Enemy>,
}

} // verus!
