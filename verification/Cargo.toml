[package]
name = "pizza_factory"
version = "0.1.0"
edition = "2021"
publish = false

[dependencies]
ciborium = "0.2"
clap = { version = "4", features = ["derive"] }
crossterm = "*"
log = "0.4"
ratatui = "*"
serde = { version = "1", features = ["derive"] }
serde_json = "1"
tui-logger = "*"
uuid = { version = "1", features = ["v4"] }
