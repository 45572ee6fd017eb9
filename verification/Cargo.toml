[package]
name = "wsengine"
version = "0.1.0"
edition = "2021"
publish = false

[dependencies]
sha1 = "0.10"
base64 = "0.22"
log = "0.4"
tokio = { version = "1", features = ["net", "io-util", "time", "rt-multi-thread", "macros"] }
