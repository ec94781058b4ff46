[package]
name = "webserver_from_scratch"
version = "0.1.0"
edition = "2021"
publish = false

[dependencies]
anyhow = "1"
base64 = "0.21"
bytes = "1"
futures = "0.3"
httpstatus = "*"
parking_lot = "0.12"
sha1 = "0.10"
socket2 = "0.5"
thiserror = "1"
tokio = { version = "1", features = ["rt-multi-thread", "net", "io-util"] }
