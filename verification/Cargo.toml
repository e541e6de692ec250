[package]
name = "pelink"
version = "0.1.0"
edition = "2021"
publish = false

[dependencies]
anyhow = "=1.0.104"
hashbrown = "=0.17.1"
object = { version = "=0.39.1", default-features = false, features = ["read", "write", "std"] }
