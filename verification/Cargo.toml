[package]
name = "kgg_decryptor"
version = "0.1.0"
edition = "2021"
publish = false

[dependencies]
aes = "0.8"
base64 = "0.22"
cbc = "0.1"
cipher = { version = "0.4", features = ["block-padding"] }
md-5 = "0.10"
notify = "6"
rusqlite = { version = "0.32", features = ["bundled"] }
serde = { version = "1", features = ["derive"] }
tempfile = "3"
