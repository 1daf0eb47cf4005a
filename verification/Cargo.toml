[package]
name = "tessy"
version = "0.1.0"
edition = "2021"
publish = false

[dependencies]
bincode = "=2.0.1"
clap = { version = "=4.6.7", features = ["derive"] }
colored = "=3.1.1"
compio = { version = "=0.19.2", features = ["macros", "dispatcher", "process", "fs", "io-compat"] }
fasthash = "=0.4.0"
futures = "=0.3.34"
futures-channel = "=0.3.34"
hashlink = "=0.12.2"
saphyr = "=0.2.2"
snafu = "=0.9.2"
supports-color = "=3.0.2"
time = "=0.3.55"
tracing = "=0.1.44"
tracing-subscriber = "=0.3.23"
zstd = "=0.13.3"
