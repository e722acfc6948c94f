[package]
name = "pane_bridge"
version = "0.1.0"
edition = "2021"
publish = false

[dependencies]
anyhow = "1"
euclid = "0.22"
flume = { version = "0.10", default-features = false }
libc = "0.2"
portable-pty = "0.7"
