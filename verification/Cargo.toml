[package]
name = "wfasm"
version = "0.1.0"
edition = "2021"
publish = false

[dependencies]
anyhow = "1"
object = { version = "0.36", default-features = false, features = ["read", "std"] }

[dev-dependencies]
iced-x86 = "1"
object = { version = "0.36", default-features = false, features = ["read", "write", "std"] }
