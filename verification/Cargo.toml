[package]
name = "dpdb"
version = "0.1.0"
edition = "2021"
publish = false

[dependencies]
clap = "3"
futures = "0.3"
log = "0.4"
log4rs = "1"
once_cell = "1"
rustyline = "10"
thiserror = "1"
tokio = { version = "1", features = ["full"] }
tokio-stream = "0.1"
tokio-util = { version = "0.7", features = ["codec"] }
