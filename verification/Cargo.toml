[package]
name = "dxca"
version = "0.1.0"
edition = "2021"
publish = false

[dependencies]
serde = { version = "1", features = ["derive"] }
serde_json = "1"
flate2 = "1"
zip = { version = "*", default-features = false, features = ["deflate"] }
ureq = "2"
tungstenite = "*"
rumqttc = "*"
tokio = { version = "1", features = ["net", "sync", "io-util", "time", "rt", "macros"] }
