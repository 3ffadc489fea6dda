[package]
name = "merk"
version = "0.1.0"
edition = "2021"
publish = false

[dependencies]
sha2 = "=0.10.9"
ed = "=0.2.2"
serde = { version = "=1.0.229", features = ["derive"] }
rand = { version = "=0.8.8", features = ["small_rng"] }
