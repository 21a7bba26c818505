[package]
name = "contextra"
version = "0.1.0"
edition = "2021"
publish = false

[dependencies]
uuid = { version = "1", features = ["v4", "v7"] }
serde = { version = "1", features = ["derive"] }
serde_json = "1"
async-trait = "0.1"
async-stream = "0.3"
futures-util = "0.3"
tokio = { version = "1", features = ["rt", "macros", "time", "sync"] }
reqwest = { version = "0.12", default-features = false, features = ["json", "stream"] }
rand = "0.8"
thiserror = "1"
dotenvy = "0.15"
metrics = "0.23"
