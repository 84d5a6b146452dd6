[package]
name = "binparse_cli"
version = "0.1.0"
edition = "2021"
publish = false

[dependencies]
crc = "3"
adler = "1"
serde = { version = "1", features = ["derive"] }
serde_yaml = "0.9"
serde_json = "1"
evalexpr = "11"
hex = "0.4"
csv = "1"
clap = { version = "4", features = ["derive"] }
anyhow = "1"
thiserror = "1"
atty = "0.2"
colored = "2"
ratatui = "0.26"
crossterm = "0.27"
