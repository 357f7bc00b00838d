[package]
name = "metainfo"
version = "0.1.0"
edition = "2021"
publish = false

[dependencies]
sha1 = "0.10"
chrono = { version = "0.4", default-features = false, features = ["clock", "std"] }

[dev-dependencies]
bendy = "0.3"
