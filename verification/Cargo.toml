[package]
name = "mlkem"
version = "0.1.0"
edition = "2021"
publish = false

[dependencies]
sha3 = "0.10"
clap = { version = "4", features = ["derive"] }
hex = "0.4"
rand = "0.8"

[dev-dependencies]
libcrux-ml-kem = "*"
