[package]
name = "rtsp-player"
version = "0.1.0"
edition = "2021"
publish = false

[dependencies]
anyhow = "1"
directories = "6"
futures = "0.3"
image = { version = "0.25", default-features = false }
retina = "0.4"
rust_h265 = "0.1"
rusty_h264 = "0.10"
serde = { version = "1", features = ["derive"] }
serde_json = "1"
serde_yaml_ng = "0.10"
tokio = { version = "1", features = ["rt", "time", "net", "macros"] }
url = "2"
uuid = { version = "1", features = ["v4", "serde"] }
