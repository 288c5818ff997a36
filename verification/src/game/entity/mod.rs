//! The player and the enemies.

pub mod enemy;
pub mod player;

pub use enemy::{Enemy, EnemyKind, Intent};
pub use player::Player;
