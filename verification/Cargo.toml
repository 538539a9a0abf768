[package]
name = "canopy"
version = "0.1.0"
edition = "2021"
publish = false

[dependencies]
glob = "*"
csv = "*"
clap = { version = "*", features = ["derive"] }
colored = "*"
crossterm = "*"
ratatui = "*"

[dev-dependencies]
serde_json = "*"
