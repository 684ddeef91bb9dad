[package]
name = "beekem_regressions"
version = "0.1.0"
edition = "2021"
publish = false

[dependencies]
future_form = "0.3"
keyhive_crypto = "=0.2.1"
rand = "=0.8.8"
tokio = { version = "=1.54.1", features = ["rt"] }
