[package]
name = "md_peruse"
version = "0.1.0"
edition = "2021"
publish = false

[dependencies]
getrandom = "0.3"
hmac = "0.12"
sha2 = "0.10"
imagesize = "0.14"
notify = "8"
serde = { version = "1", features = ["derive"] }
serde_json = "1"
tokio = { version = "1", features = ["sync"] }
