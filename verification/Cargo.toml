[package]
name = "tui_game"
version = "0.1.0"
edition = "2021"
publish = false

[dependencies]
rand = "*"
serde = { version = "1", features = ["derive"] }
ron = "*"
ratatui = "*"
color-eyre = "*"
