[package]
name = "gameshell"
version = "0.1.0"
edition = "2021"
publish = false

[dependencies]
base64 = "0.13"
regex = "1"
smallvec = "1"
slog = "2"
tokio = { version = "0.2", default-features = false, features = ["tcp", "io-util"] }
quickcheck = "0.9"
rand = "0.7"

[dev-dependencies]
crossbeam-channel = "0.5"
