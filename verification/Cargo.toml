[package]
name = "tapir"
version = "0.1.0"
edition = "2021"
publish = false

[dependencies]
qrcode2 = "*"
datamatrix = "*"
image = { version = "*", default-features = false, features = ["png"] }
freetype-rs = "*"
nusb = "*"
axum = "*"
tokio = { version = "*", features = ["full"] }
tower-http = { version = "*", features = ["cors", "trace"] }
serde = { version = "*", features = ["derive"] }
serde_json = "*"
toml = "*"
tracing = "*"
tracing-subscriber = "*"
