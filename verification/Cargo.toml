[package]
name = "fuzzy_rocks"
version = "0.1.0"
edition = "2021"
publish = false

[dependencies]
rocksdb = { version = "*", default-features = false, features = ["bindgen-runtime"] }
bincode = "1.3.3"
serde = { version = "1", features = ["derive"] }
rmp-serde = "1"
