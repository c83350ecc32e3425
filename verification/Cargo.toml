[package]
name = "responses_api_proxy"
version = "0.1.0"
edition = "2021"
publish = false

[dependencies]
anyhow = "1"
base64 = "0.22"
clap = { version = "4", features = ["derive"] }
futures = "0.3"
http = "1"
httpdate = "1"
reqwest = { version = "0.12", default-features = false, features = ["rustls-tls"] }
serde = { version = "1", features = ["derive"] }
serde_json = "1"
sha2 = "0.10"
tiny_http = "0.12"
tokio = { version = "1", features = ["full"] }
tokio-tungstenite = "0.28"
tokio-util = "0.7"
tracing = "0.1"
urlencoding = "2"
uuid = { version = "1", features = ["v4"] }
