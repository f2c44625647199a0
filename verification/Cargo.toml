[package]
name = "shared_slab"
version = "0.1.0"
edition = "2021"
publish = false

[dependencies]
js-sys = "0.3"
serde = { version = "1", features = ["derive"] }
serde_cbor = "0.11"
slab = "0.4"
thiserror = "1"
web-sys = { version = "0.3", features = ["console"] }
