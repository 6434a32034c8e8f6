[package]
name = "baumaus"
version = "0.1.0"
edition = "2021"
publish = false

[dependencies]
color-eyre = "*"
crossterm = "*"
ratatui = "*"
ratatui-ratty = "*"
serde = { version = "*", features = ["derive"] }
serde_json = "*"
