[package]
name = "devcap"
version = "0.1.0"
edition = "2021"
publish = false

[dependencies]
chrono = { version = "0.4", default-features = false, features = ["clock", "std"] }
git2 = { version = "*", default-features = false }
rayon = "1"
serde = { version = "1", features = ["derive"] }
serde_json = "1"
