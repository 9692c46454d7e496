[package]
name = "neurograph"
version = "0.1.0"
edition = "2021"
publish = false

[dependencies]
sha2 = "0.10"
ed25519-dalek = { version = "2", features = ["rand_core", "batch"] }
rand = "0.8"
rand_distr = "0.4"
ring = "0.17"
serde = { version = "1", features = ["derive"] }
serde_json = "1"
bincode = "1"
flume = "0.11"
ndarray = "0.15"
rayon = "1"
