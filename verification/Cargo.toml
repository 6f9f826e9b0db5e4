[package]
name = "trajectory_core"
version = "0.1.0"
edition = "2021"
publish = false

[dependencies]
chrono = { version = "0.4", default-features = false, features = ["std"] }
num-format = "0.4"
prost = "0.13"
rust_decimal = { version = "1", default-features = false, features = ["std"] }
thiserror = "1"
