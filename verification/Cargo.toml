[package]
name = "charizard"
version = "0.1.0"
edition = "2021"
publish = false

[dependencies]
pc-keyboard = "=0.9.0"
x86_64 = { version = "=0.14.13", default-features = false, features = ["instructions"] }
spin = "=0.12.3"
lazy_static = "=1.5.1"
