[package]
name = "ethereal_waves"
version = "0.1.0"
edition = "2021"
publish = false

[dependencies]
rand = "=0.9.5"
sha2 = "=0.10.9"
url = "=2.5.8"
urlencoding = "=2.1.3"
walkdir = "=2.5.0"
xdg = "=3.0.0"
serde = { version = "=1.0.229", features = ["derive"] }
serde_json = "=1.0.154"
tokio = { version = "=1.54.1", features = ["rt-multi-thread", "sync", "time"] }
tokio-stream = "=0.1.19"
futures-util = "=0.3.34"
log = "=0.4.34"
