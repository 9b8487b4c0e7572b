[package]
name = "examplens"
version = "0.1.0"
edition = "2021"
publish = false

[dependencies]
anyhow = "1"
serde = "1"
serde_yaml = "0.9"
tokio = { version = "1", features = ["rt-multi-thread", "macros", "net"] }
trust-dns-resolver = "0.22"
trust-dns-server = { version = "0.22", features = ["resolver"] }
