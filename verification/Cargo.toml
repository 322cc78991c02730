[package]
name = "solitaire"
version = "0.1.0"
edition = "2021"
publish = false

[dependencies]
rand = "0.8"
tokio = { version = "1", features = ["sync", "rt-multi-thread", "macros"] }
uuid = { version = "1", features = ["v4"] }
tonic = "0.7"
prost = "0.10"
tokio-stream = "0.1"
async-trait = "0.1"
futures-core = "0.3"
http = "0.2"
