[package]
name = "fsearch"
version = "0.1.0"
edition = "2021"
publish = false

[dependencies]
ignore = "=0.4.33"
tokio = { version = "=1.53.2", features = ["rt-multi-thread", "macros", "fs", "sync"] }
clap = { version = "=4.6.7", features = ["derive"] }
anyhow = "=1.0.104"

[dev-dependencies]
tempfile = "*"
