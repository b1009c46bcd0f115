[package]
name = "fals3"
version = "0.1.0"
edition = "2021"
publish = false

[dependencies]
md5 = "0.7"
napi = { version = "2", default-features = false, features = ["napi4"] }
napi-derive = "2"
parking_lot = "0.12"
serde = { version = "1", features = ["derive"] }
serde_json = "1"
thiserror = "1"
