[package]
name = "ltp_server"
version = "0.1.0"
edition = "2021"
publish = false

[dependencies]
async-trait = "*"
clap = "2"
futures = "*"
log = "*"
log4rs = "*"
thiserror = "*"
tokio = { version = "1", features = ["full"] }
tokio-stream = "*"
tokio-util = { version = "*", features = ["codec"] }
