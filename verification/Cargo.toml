[package]
name = "opto_synth"
version = "0.1.0"
edition = "2021"
publish = false

[dependencies]
blake3 = "1"
hashbrown = "0.15"
smallvec = "1"
serde = { version = "1", features = ["derive"] }
