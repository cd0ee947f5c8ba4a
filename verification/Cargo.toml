[package]
name = "paxoskv"
version = "0.1.0"
edition = "2021"
publish = false

[dependencies]
tonic = "0.10"
prost = "0.12"
tokio = { version = "1", features = ["macros", "rt-multi-thread", "time", "sync"] }
http = "0.2"
