[package]
name = "rusty_battleships"
version = "0.1.0"
edition = "2021"
publish = false

[dependencies]
byteorder = "1"
rustc-serialize = "0.3"
qmlrs = "*"
