[package]
name = "desktop_tui"
version = "0.2.0"
edition = "2021"
publish = false

[dependencies]
serde = { version = "1", features = ["derive"] }
serde_json = "1"
ratatui = "0.30"
ratatui-3dmesh = "*"
