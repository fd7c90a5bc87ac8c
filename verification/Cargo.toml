[package]
name = "lsh_rs"
version = "0.1.0"
edition = "2021"
publish = false

[dependencies]
itertools = "0.12"
rand = { version = "0.8", features = ["small_rng"] }
rayon = "1"
ndarray = { version = "0.15", features = ["serde"] }
ndarray-rand = "0.14"
serde = { version = "1", features = ["derive"] }
bincode = "1"
rusqlite = { version = "0.31", features = ["bundled"] }
