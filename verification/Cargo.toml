[package]
name = "octomatch"
version = "0.1.0"
edition = "2021"
publish = false

[dependencies]
uuid = { version = "1", features = ["v4"] }
rust_decimal = "1"
rust_decimal_macros = "1"
log = "0.4"
