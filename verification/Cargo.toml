[package]
name = "sparse_core"
version = "0.1.0"
edition = "2021"
publish = false

[dependencies]
bitpacking = "*"
half = "*"
ordered-float = "*"
num-traits = "*"
rand = "0.8"
serde = { version = "1", features = ["derive"] }
serde_json = "1"
uuid = { version = "1", features = ["serde", "v4"] }
bitvec = { version = "1", features = ["serde"] }
parking_lot = "*"
