[package]
name = "greyjack"
version = "0.1.0"
edition = "2021"
publish = false

[dependencies]
rand = { version = "0.8.5", features = ["small_rng"] }
rand_distr = "0.4.3"
rustc-hash = "2"
chrono = "0.4"
serde = { version = "1", features = ["derive"] }
serde_json = "1"
