[package]
name = "mixpanel"
version = "0.1.0"
edition = "2021"
publish = false

[dependencies]
serde_json = "1"
chrono = "0.4"
md5 = "0.7"
rust-crypto = "0.2"
hyper = "0.10"
