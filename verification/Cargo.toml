[package]
name = "nonogram"
version = "0.1.0"
edition = "2021"
publish = false

[dependencies]
crc = "1"
ndarray = "0.15"
ndarray-rand = "0.14"
rand = "0.8"
serde = { version = "1", features = ["derive"] }
serde_json = "1"
