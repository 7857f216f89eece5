[package]
name = "bitchat_rust"
version = "0.1.0"
edition = "2021"
publish = false

[dependencies]
snow = "0.9"
ed25519-dalek = { version = "2", features = ["rand_core"] }
rand = "0.8"
lz4_flex = "0.11"
sha2 = "0.10"
uuid = { version = "1", features = ["v4"] }
tokio = { version = "1", features = ["rt-multi-thread", "macros", "sync"] }
btleplug = "0.11"
futures = "0.3"
tracing = "0.1"
tracing-subscriber = { version = "0.3", default-features = false, features = ["fmt", "std"] }
chrono = { version = "0.4", default-features = false, features = ["alloc", "std", "now"] }
geohash = "0.13"
bincode = "1"
serde = { version = "1", features = ["derive"] }
serde_bytes = "0.11"
