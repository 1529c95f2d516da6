[package]
name = "addr_cache"
version = "0.1.0"
edition = "2021"
publish = false

[dependencies]
libp2p = { version = "=0.57.1", default-features = false }
log = "0.4"
sp-authority-discovery = { version = "*", default-features = false }
