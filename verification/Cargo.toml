[package]
name = "socks_broker"
version = "0.1.0"
edition = "2021"
publish = false

[dependencies]
serde_json = "1"
bytes = "1"
dotenv = "0.15"
getopts = "0.2"
hyper = { version = "0.14", features = ["server", "http1", "tcp"] }
log = "0.4"
prometheus = "0.13"
tokio = { version = "1", features = ["rt-multi-thread", "net", "time", "sync", "macros", "io-util"] }
