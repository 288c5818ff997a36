//! A tiny command language: `create` and `delete`.

pub mod operation;
pub mod parser;
