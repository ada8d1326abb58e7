[package]
name = "btdht"
version = "0.1.0"
edition = "2021"
publish = false

[dependencies]
log = "0.4"
rand = "0.8"
rust-crypto = "0.2"
sha1 = "0.10"
tokio = { version = "1", features = ["macros", "net", "rt", "sync", "time"] }
