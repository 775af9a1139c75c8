[package]
name = "alesia_client"
version = "0.1.0"
edition = "2021"
publish = false

[dependencies]
tokio = { version = "*", features = ["net", "io-util", "rt", "rt-multi-thread", "macros"] }
async-trait = "*"
bb8 = "*"
