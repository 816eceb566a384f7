[package]
name = "toywoot"
version = "0.1.0"
edition = "2021"

[dependencies]
anyhow = "1"
crossterm = "0.28"
env_logger = "0.11"
log = "0.4"
ratatui = "0.29"
tui-textarea = "0.7"

[dev-dependencies]
serde_json = "1"
