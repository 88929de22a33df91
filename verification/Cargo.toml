[package]
name = "smpte2022-1-fec"
version = "0.1.0"
edition = "2021"
publish = false

[dependencies]
arrayvec = "=0.5.2"
rtp-rs = "=0.5.0"
smpte2022-1-packet = "=0.5.0"
