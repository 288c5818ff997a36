//! The pure simulation. No terminal, no IO.

pub mod chance;
pub mod element;
pub mod encounter;
pub mod event;
pub mod map;
pub mod options;
pub mod reward;
pub mod run;
pub mod shop;
pub mod status;
pub mod spell;
pub mod combat;
pub mod content;
pub mod entity;
