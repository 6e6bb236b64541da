[package]
name = "repath"
version = "0.1.0"
edition = "2021"
publish = false

[dependencies]
dashmap = "5"
rand = "0.8"
rayon = "1"
csv = "1"
serde = { version = "1", features = ["derive"] }
