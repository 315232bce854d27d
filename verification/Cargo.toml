[package]
name = "furze"
version = "0.1.0"
edition = "2021"
publish = false

[dependencies]
byteorder = "1"
varintrs = "*"
thiserror = "1"

[dev-dependencies]
rand = "0.8"
