[package]
name = "mr_modpack"
version = "0.1.0"
edition = "2021"
publish = false

[dependencies]
itertools = "0.12"
async_zip = { version = "*", features = ["tokio", "deflate"] }
bytes = "1"
ferinth = "*"
reqwest = "*"
serde = { version = "1", features = ["derive"] }
serde_json = "1"
thiserror = "1"
tokio = { version = "1", features = ["fs", "macros", "rt-multi-thread", "sync", "time"] }
