[package]
name = "minichain"
version = "0.1.0"
edition = "2021"
publish = false

[dependencies]
rust-crypto = "0.2"
bincode = "1.3"
merkle-cbt = "0.2"
bitcoincash-addr = "0.5"
rand = "0.4"
hex = "0.4"
chrono = "0.4"
serde = { version = "1", features = ["derive"] }
serde_json = "1"
sled = "0.34"
failure = "0.1"
log = "0.4"
env_logger = "0.7"
clap = "2.33"
actix-web = "4"
