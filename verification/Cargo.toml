[package]
name = "zap_core"
version = "0.1.0"
edition = "2021"
publish = false

[dependencies]
anyhow = "=1.0.104"
tiny_http = "=0.12.0"
jni = "=0.21.1"
getrandom = "0.2"
