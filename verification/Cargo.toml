[package]
name = "rsync_client"
version = "0.1.0"
edition = "2021"
publish = false

[dependencies]
eyre = "*"
filetime = "*"
md4 = "*"
tempfile = "*"
tokio = { version = "*", features = ["fs", "io-util", "macros", "net", "rt-multi-thread"] }
tracing = "*"
tracing-subscriber = "*"
url = "*"
