[package]
name = "focusd_island"
version = "0.1.7"
edition = "2021"
publish = false

[dependencies]
sha2 = "0.10"
base64 = "0.22"
image = { version = "0.25", default-features = false, features = ["png"] }
serde = { version = "1", features = ["derive"] }
serde_json = "1"
arboard = "3"
