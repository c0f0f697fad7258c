[package]
name = "pxar"
version = "0.1.0"
edition = "2021"
publish = false

[dependencies]
siphasher = "0.3"
tokio = { version = "1", features = ["fs", "io-util", "rt", "macros"] }

[dev-dependencies]
libc = "0.2"
