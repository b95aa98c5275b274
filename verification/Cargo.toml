[package]
name = "dog"
version = "0.1.0"
edition = "2021"
publish = false

[dependencies]
anyhow = "*"
futures = "*"
logos = "*"
rowan = "*"
serde = { version = "*", features = ["derive"] }
serde_json = "*"
swc_common = "*"
swc_ecmascript = { version = "*", features = ["parser"] }
thiserror = "*"
