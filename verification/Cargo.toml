[package]
name = "lu_server"
version = "0.1.0"
edition = "2021"
publish = false

[dependencies]
rand = "0.8"
tokio = { version = "1", features = ["net", "io-util", "rt-multi-thread", "macros"] }
