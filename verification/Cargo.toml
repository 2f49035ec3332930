[package]
name = "ssid"
version = "0.1.0"
edition = "2021"
publish = false

[dependencies]
amplify = "4"
baid58 = "=0.4.4"
base85 = "=2.0.0"
bp-std = "0.12.0-rc.3"
clap = { version = "4", features = ["derive", "env"] }
commit_verify = "0.12"
ec25519 = "=0.1.0"
rand = "0.8"
shellexpand = "3"
strict_encoding = "2"
