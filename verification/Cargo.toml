[package]
name = "nacos-toolkit"
version = "0.1.0"
edition = "2021"
publish = false

[dependencies]
serde_json = "1"
serde_norway = "*"
regex = "1"
reqwest = { version = "0.12", default-features = false }
tokio = { version = "1", features = ["sync", "macros", "rt-multi-thread", "time"] }
async-trait = "0.1"
once_cell = "1"
thiserror = "1"
tracing = "0.1"

[dev-dependencies]
tempfile = "3"
