[package]
name = "motatool"
version = "0.1.0"
edition = "2021"
publish = false

[dependencies]
anyhow = "1"
clap = { version = "4", features = ["derive"] }
ctrlc = "3"
ed25519-dalek = { version = "2", features = ["rand_core"] }
hex = "0.4"
ihex = "3"
rand_core = { version = "0.6", features = ["getrandom"] }
sha2 = "0.10"
ureq = "2"
