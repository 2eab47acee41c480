[package]
name = "orderbookx"
version = "0.1.0"
edition = "2021"
publish = false

[dependencies]
indexmap = { version = "2", features = ["rayon"] }
rayon = "1"
tokio = { version = "1", features = ["macros", "rt-multi-thread"] }
tonic = "0.12"
tracing = "0.1"

[dev-dependencies]
rand = "0.8"
