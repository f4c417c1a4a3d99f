[package]
name = "profix"
version = "0.1.0"
edition = "2021"
publish = false

[dependencies]
chrono = { version = "0.4", default-features = false, features = ["std", "clock"] }
log = "0.4"
native-tls = "0.2"

[dev-dependencies]
quickcheck = "1"
