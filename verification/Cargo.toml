[package]
name = "coconut"
version = "0.1.0"
edition = "2021"
publish = false

[dependencies]
uefi = { version = "0.33", features = ["alloc"] }
