[package]
name = "libactionkv"
version = "0.1.0"
edition = "2021"
publish = false

[dependencies]
byteorder = "1"
shlex = "1"
clap = { version = "4", features = ["derive"] }
serde = { version = "1", features = ["derive"] }
serde_derive = "1"
