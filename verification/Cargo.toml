[package]
name = "url2md"
version = "0.1.0"
edition = "2021"
publish = false

[dependencies]
anyhow = "1"
async-channel = "2"
clap = { version = "4", features = ["derive"] }
console = "0.15"
indicatif = "0.17"
tokio = { version = "1", features = ["fs", "rt-multi-thread", "macros", "sync"] }
walkdir = "2"
