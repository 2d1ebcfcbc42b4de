[package]
name = "passage"
version = "0.1.0"
edition = "2021"
publish = false

[dependencies]
socket2 = { version = "*", features = ["all"] }
nix = { version = "*", features = ["poll", "fs"] }
log = "*"
env_logger = "*"
clap = { version = "*", features = ["derive"] }
