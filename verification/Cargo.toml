[package]
name = "xorf"
version = "0.1.0"
edition = "2021"
publish = false

[dependencies]
bincode = "2"
libm = "0.2"
rand = "0.8"
serde = { version = "1", features = ["derive"] }
