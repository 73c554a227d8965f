[package]
name = "ringest"
version = "0.1.0"
edition = "2021"
publish = false

[dependencies]
async-trait = "*"
bytes = "*"
dashmap = "*"
futures = "*"
lazy_static = "*"
minstant = "*"
parking_lot = "*"
regex = "*"
thiserror = "*"
tokio = { version = "*", features = ["full"] }
trash = "*"
