[package]
name = "oxiaudio_codec"
version = "0.1.0"
edition = "2021"
publish = false

[dependencies]
oxifft = "*"

[dev-dependencies]
opus-decoder = "0.1.1"
