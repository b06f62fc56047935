[package]
name = "entities"
version = "0.1.0"
edition = "2021"
publish = false

[dependencies]
serde = "1"

[dev-dependencies]
rand = { version = "0.9", default-features = false, features = ["std", "std_rng"] }
