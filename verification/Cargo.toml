[package]
name = "wacca_touch"
version = "0.1.0"
edition = "2021"
publish = false

[dependencies]
serialport = { version = "4", default-features = false }
serial2 = "0.2"
