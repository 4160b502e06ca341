[package]
name = "rusty-words"
version = "0.1.0"
edition = "2021"
publish = false

[dependencies]
chrono = "0.4"
rand = "0.8"
regex = "1"
uuid = "1"
clap = { version = "4", features = ["derive"] }
color-eyre = "0.6"
crossterm = "*"
ratatui = "*"
tui-input = "*"
ron = "*"
serde = { version = "1", features = ["derive"] }
serde_with = "*"
dirs = "*"
libc = "0.2"
itertools = "*"
tabled = "*"
