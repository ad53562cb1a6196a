[package]
name = "streamvbyte"
version = "0.1.0"
edition = "2021"
publish = false

[dependencies]
streamvbyte-sys = "*"
thiserror = "1"

[dev-dependencies]
rand = "0.8"
