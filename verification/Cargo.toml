[package]
name = "video_mosaic"
version = "0.1.0"
edition = "2021"
publish = false

[dependencies]
rand = "0.8"
rust-ini = "*"
ffmpeg-sidecar = "*"
ffprobe = "*"
clap = { version = "4", features = ["derive"] }
