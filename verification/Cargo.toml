[package]
name = "symphonia_codec_opus"
version = "0.1.0"
edition = "2021"
publish = false

[dependencies]
symphonia-core = "0.5"
once_cell = "1"
