[package]
name = "eullm"
version = "0.6.39"
edition = "2021"
publish = false

[dependencies]
async-stream = "0.3"
axum = "0.8"
base64 = "0.22"
chrono = { version = "0.4", features = ["serde"] }
crossbeam-channel = "0.5"
encoding_rs = "0.8"
futures-util = "0.3"
ipnet = "2"
libc = "0.2"
llama-cpp-2 = "0.1"
llama-cpp-sys-2 = "0.1"
parking_lot = "0.12"
rustyline = "*"
serde = { version = "1", features = ["derive"] }
serde_json = "1"
sha2 = "0.10"
tokio = { version = "1", features = ["full"] }
tower-http = { version = "0.6", features = ["cors"] }
tracing = "0.1"
uuid = { version = "1", features = ["v4", "serde"] }
