[package]
name = "woodland"
version = "0.1.0"
edition = "2021"
publish = false

[dependencies]
sha2 = "=0.10.9"
dynfmt = { version = "=0.1.5", features = ["curly"] }
serde = { version = "1", features = ["derive"] }
ron = "=0.10.1"
anyhow = "1"
rand = "=0.9.5"
fastnoise-lite = "=1.1.1"
