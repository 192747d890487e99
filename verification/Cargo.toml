[package]
name = "trace_lang"
version = "0.1.0"
edition = "2021"
publish = false

[dependencies]
uuid = { version = "1", features = ["v4", "serde"] }
chrono = { version = "0.4", features = ["serde"] }
serde = { version = "1", features = ["derive"] }
serde_json = { version = "1", features = ["float_roundtrip"] }
thiserror = "2"
miette = "7"
clap = { version = "4", features = ["derive"] }
async-trait = "0.1"
futures = "0.3"
