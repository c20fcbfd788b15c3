[package]
name = "feedview"
version = "0.1.0"
edition = "2021"
publish = false

[dependencies]
axum = "*"
base64 = "*"
chrono = "*"
clap = { version = "*", features = ["derive"] }
feed-rs = "*"
http-body-util = "*"
hyper = { version = "*", features = ["full"] }
hyper-rustls = { version = "*", default-features = false, features = ["native-tokio", "http1", "http2", "ring", "tls12"] }
hyper-util = { version = "*", features = ["client-legacy", "http1", "http2", "tokio"] }
mediatype = "*"
rand = "*"
tokio = { version = "*", features = ["rt-multi-thread", "macros", "net"] }
tower = "*"
tower-http = { version = "*", features = ["compression-br", "trace"] }
tracing = "*"
tracing-subscriber = "*"
