[package]
name = "rust-cdp"
version = "0.1.0"
edition = "2021"
publish = false

[dependencies]
chromiumoxide_cdp = "*"
chromiumoxide_types = "*"
libc = "0.2"
serde = { version = "1", features = ["derive"] }
serde_json = "1"
