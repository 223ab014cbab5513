[package]
name = "slowclaw"
version = "0.1.0"
edition = "2021"
publish = false

[dependencies]
anyhow = "=1.0.104"
async-trait = "=0.1.92"
axum = "=0.8.9"
chrono = "=0.4.45"
hex = "=0.4.3"
hmac = "=0.12.1"
http-body-util = "=0.1.5"
keyring = "=3.6.3"
parking_lot = "=0.12.5"
rand = "=0.8.8"
reqwest = { version = "=0.12.28", default-features = false, features = ["json"] }
serde = { version = "=1.0.229", features = ["derive"] }
serde_json = "=1.0.154"
sha2 = "=0.10.9"
tokio = { version = "=1.54.1", features = ["rt-multi-thread", "macros", "net", "time", "fs", "process", "io-util", "sync"] }
tower = { version = "=0.5.3", features = ["util"] }
tower-http = { version = "=0.6.11", features = ["limit", "timeout", "fs"] }
tracing = "=0.1.44"
uuid = { version = "=1.29.0", features = ["v4"] }
which = "=7.0.3"
