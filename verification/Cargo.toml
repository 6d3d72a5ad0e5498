[package]
name = "load_balancer"
version = "0.1.0"
edition = "2021"
publish = false

[dependencies]
anyhow = "1"
axum = "0.8"
chat-prompts = "*"
chrono = "0.4"
clap = { version = "4", features = ["derive"] }
endpoints = "*"
http-body-util = "0.1"
hyper = { version = "1", features = ["client", "http1"] }
hyper-util = { version = "0.1", features = ["tokio"] }
log = "0.4"
log4rs = "1"
parking_lot = "0.12"
radix_trie = "0.2"
reqwest = { version = "0.12", default-features = false, features = ["json"] }
serde = { version = "1", features = ["derive"] }
serde_json = "1"
stream-guard = "*"
tokenizers = { version = "*", features = ["http"] }
tokio = { version = "1", features = ["full"] }
url = "2"
