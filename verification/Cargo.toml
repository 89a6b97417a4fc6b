[package]
name = "basalt"
version = "0.1.0"
edition = "2021"
publish = false

[dependencies]
sodiumoxide = "*"
serde = { version = "1", features = ["derive"] }
serde_json = "1"
clap = "2"
dirs = "*"
fork = "*"
glob = "*"
nix = "*"
tempfile = "*"
