[package]
name = "command_center"
version = "0.1.0"
edition = "2021"
publish = false

[dependencies]
aes-gcm = "=0.10.3"
anyhow = "=1.0.104"
base64 = "=0.22.1"
bincode = "=1.3.3"
chrono = { version = "=0.4.45", default-features = false, features = ["serde"] }
getrandom = "=0.2.17"
serde = { version = "=1.0.229", features = ["derive"] }
serde_json = "=1.0.151"
sha2 = "=0.10.9"
