[package]
name = "gemini_book"
version = "0.1.0"
edition = "2021"
publish = false

[dependencies]
rust_decimal = "1"
serde = { version = "1", features = ["derive"] }
serde_json = "1"
serde_with = "3"
base64 = "0.22"
hmac = "0.12"
sha2 = "0.10"
hex = "0.4"
chrono = { version = "0.4", features = ["serde"] }
anyhow = "1"
dashmap = "6"
dotenvy = "0.15"
futures-util = { version = "0.3", features = ["sink"] }
kanal = "0.1"
tokio = { version = "1", features = ["full"] }
tokio-tungstenite = { version = "*", features = ["rustls-tls-webpki-roots"] }
tokio-util = "0.7"
url = "2"
reqwest = { version = "0.12", default-features = false, features = ["json", "rustls-tls"] }
