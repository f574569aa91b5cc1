[package]
name = "gcmodule"
version = "0.1.0"
edition = "2021"
publish = false

[dev-dependencies]
quickcheck = { version = "1", default-features = false }
