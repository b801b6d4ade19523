[package]
name = "ergo"
version = "0.1.0"
edition = "2021"
publish = false

[dependencies]
log = "0.4"
simplelog = "0.12"
users = "0.11"
objc2 = "0.6"
objc2-app-kit = "0.3"
objc2-core-foundation = "0.3"
objc2-foundation = "0.3"
