[package]
name = "pkglist"
version = "0.1.0"
edition = "2021"
publish = false

[dependencies]
clap = { version = "4", features = ["derive"] }
colored = "2"
crossterm = "0.28"
ratatui = "0.28"
serde = { version = "1", features = ["derive"] }
serde_json = "1"
