//! A simpler data model: a player, spells with a damage and a block value,
//! enemies, and a fight between them. The game proper lives in `game`.

mod enemy;
mod event;
mod fight;
mod game_manager;
mod player;
mod spell;

pub use enemy::Enemy;
pub use event::{GameEvent, InputEvent, input_event};
pub use fight::{Fight, FightFactory, FightManager, TurnType};
pub use game_manager::GameManager;
pub use player::Player;
pub use spell::{Element, Spell, Status};
