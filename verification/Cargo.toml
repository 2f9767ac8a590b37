[package]
name = "sparkx_primegen"
version = "0.1.0"
edition = "2021"
publish = false

[dependencies]
clap = { version = "4", features = ["derive"] }
integer-sqrt = "0.1"
