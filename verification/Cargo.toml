[package]
name = "toad_ops"
version = "0.1.0"
edition = "2021"
publish = false

[dependencies]
rayon = "*"
walkdir = "*"
ignore = "*"
wait-timeout = "*"
chrono = "*"
serde = { version = "*", features = ["derive"] }
serde_json = "*"
cargo_metadata = "*"
