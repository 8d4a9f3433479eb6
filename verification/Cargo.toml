[package]
name = "hyperfetch"
version = "0.1.0"
edition = "2021"
publish = false

[dependencies]
anyhow = "=1.0.104"
clap = { version = "=4.6.7", features = ["derive"] }
console = "=0.16.6"
indicatif = "=0.18.6"
infer = "=0.22.0"
reqwest = { version = "=0.12.28", default-features = false, features = ["gzip", "brotli", "deflate", "rustls-tls"] }
tokio = { version = "=1.54.1", features = ["rt-multi-thread", "macros", "sync", "time"] }
url = "=2.5.8"
