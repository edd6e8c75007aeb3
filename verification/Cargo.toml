[package]
name = "hashassin_core"
version = "0.1.0"
edition = "2021"
publish = false

[dependencies]
anyhow = "1"
base64 = "0.22"
clap = { version = "4", features = ["derive"] }
digest = "0.10"
hex = "0.4"
md-5 = "0.10"
rand = "0.8"
rayon = "1"
scrypt = "0.11"
sha2 = "0.10"
sha3 = "0.10"
thiserror = "1"
tracing = "0.1"
tracing-subscriber = "0.3"
