[package]
name = "serbf"
version = "0.1.0"
edition = "2021"
publish = false

[dependencies]
serde = "1"
thiserror = "*"

[dev-dependencies]
byteorder = "1"
varint-rs = "*"
