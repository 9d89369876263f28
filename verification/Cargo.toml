[package]
name = "boostlss"
version = "0.1.0"
edition = "2021"
publish = false

[dependencies]
rand = "0.8"
ndarray = { version = "0.15", features = ["serde"] }
serde = { version = "1", features = ["derive"] }
serde_json = "1"
thiserror = "1"
faer = "0.19"
statrs = "0.17"
rayon = "1"
bincode = "1"
