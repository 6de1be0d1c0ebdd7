[package]
name = "luac_parser"
version = "0.1.0"
edition = "2021"
publish = false

[dependencies]
nom = "=7.1.3"
nom-leb128 = "=0.2.0"
serde = { version = "=1.0.229", features = ["derive", "rc"] }
serde_bytes = "=0.11.19"
rmp-serde = "=1.3.1"
