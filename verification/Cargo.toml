[package]
name = "sweater"
version = "0.1.0"
edition = "2021"
publish = false

[dependencies]
trove = "*"
serde = { version = "*", features = ["derive"] }
serde_json = "*"
anyhow = "*"
fallible-iterator = "*"
html-escape = "*"
xxhash-rust = { version = "*", features = ["xxh3"] }

[dev-dependencies]
nanorand = "*"
