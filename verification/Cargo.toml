[package]
name = "backtor"
version = "0.1.0"
edition = "2021"
publish = false

[dependencies]
anyhow = "*"
base32 = "*"
clap = { version = "*", features = ["derive"] }
crossterm = "*"
ed25519-dalek = { version = "2", features = ["hazmat"] }
futures = "*"
hex = "*"
libc = "*"
log = "*"
portable-pty = "*"
safelog = "*"
sha3 = "0.10"
tokio = { version = "*", features = ["full"] }
tokio-util = { version = "*", features = ["full"] }
tor-llcrypto = "*"
tracing-subscriber = { version = "*", features = ["env-filter"] }
