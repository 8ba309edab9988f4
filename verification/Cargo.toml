[package]
name = "redis_starter_rust"
version = "0.1.0"
edition = "2021"
publish = false

[dependencies]
anyhow = "1"
byteorder = "1"
bytes = "1"
chrono = "0.4"
faster-hex = "0.9"
femme = "2"
itertools = "0.13"
log = "0.4"
rand = "0.8"
serde = { version = "1", features = ["derive"] }
thiserror = "1"
tokio = { version = "1", features = ["full"] }
