[package]
name = "rustasr"
version = "0.1.0"
edition = "2021"
publish = false

[dependencies]
anyhow = "1"
candle-core = "0.9"
candle-nn = "0.9"
candle-transformers = "0.9"
rand = "0.8"
rubato = "0.16"
rustfft = "6"
safetensors = "*"
serde = { version = "1", features = ["derive"] }
serde_json = "1"
tokenizers = "*"
webrtc-vad = "0.4"
