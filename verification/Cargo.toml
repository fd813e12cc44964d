[package]
name = "net_lib"
version = "0.1.0"
edition = "2021"
publish = false

[dependencies]
urlparse = "0.7"
rand = { version = "0.7", features = ["small_rng"] }
multimap = "0.8"
bincode = "1"
serde = { version = "1", features = ["derive"] }
async-std = "1"
futures = { version = "0.3", features = ["thread-pool"] }
log = "0.4"
chrono = "0.4"
rusqlite = { version = "*", features = ["blob", "chrono"] }
