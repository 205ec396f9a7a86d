[package]
name = "may_minihttp"
version = "0.1.0"
edition = "2021"
publish = false

[dependencies]
bytes = "1"
http = "0.2"
httparse = "1"
may = { version = "0.3", features = ["io_timeout"] }
rustls = { version = "0.23", default-features = false, features = ["ring", "std", "tls12"] }
rustls-platform-verifier = "*"
serde = "1"
serde_json = "1"
url = "2"
