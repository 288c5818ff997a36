//! A roguelike spell-battler: the simulation, verified.
//!
//! `game` is the pure simulation (elements, statuses, the incantation
//! resolver, combat, the map, shops, rewards and events). The terminal shell
//! that draws it lives outside this crate's verified part.

pub mod action;
pub mod app;
pub mod cli;
pub mod game;
pub mod input;
pub mod model;
pub mod text;
