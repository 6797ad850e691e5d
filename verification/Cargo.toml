[package]
name = "obsidian_vault_grouper"
version = "2.5.1"
edition = "2021"
publish = false

[dependencies]
anyhow = "1"
backoff = "0.4"
clap = { version = "4", features = ["derive"] }
dunce = "1"
fs4 = "*"
globset = "0.4"
indicatif = "*"
jiff = "*"
tempfile = "3"
walkdir = "2"
