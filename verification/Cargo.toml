[package]
name = "prime_sieve"
version = "0.1.0"
edition = "2021"
publish = false

[dependencies]
rayon = "1"

[dev-dependencies]
serde_json = "1"
