[package]
name = "hypha"
version = "0.1.0"
edition = "2021"
publish = false

[dependencies]
age = { version = "=0.11.5", features = ["async"] }
async-trait = "=0.1.92"
aws-sdk-s3 = { version = "=1.157.0", default-features = false, features = ["rt-tokio"] }
base64-simd = "=0.8.0"
bytes = "=1.12.1"
dashmap = "=6.1.0"
fastbloom = "=0.17.0"
figment = { version = "=0.10.19", features = ["toml", "env"] }
futures = "=0.3.34"
hex = "=0.4.3"
hmac = "=0.12.1"
http-body-util = "=0.1.5"
hyper = { version = "=1.12.0", features = ["http1", "server"] }
hyper-util = { version = "=0.1.21", features = ["http1", "server", "server-auto", "server-graceful", "service", "tokio"] }
md-5 = "=0.10.6"
metrics = "=0.24.6"
metrics-exporter-prometheus = { version = "=0.16.2", default-features = false }
percent-encoding = "=2.3.2"
rand = "=0.8.8"
reqwest = { version = "=0.12.28", default-features = false, features = ["json"] }
s3s = { version = "=0.11.1", default-features = false }
serde = { version = "=1.0.229", features = ["derive"] }
sha2 = "=0.10.9"
subtle = "=2.6.1"
tokio = { version = "=1.54.1", features = ["full"] }
tokio-util = { version = "=0.7.20", features = ["compat", "io", "io-util", "rt"] }
tracing = "=0.1.44"
tracing-subscriber = { version = "=0.3.23", features = ["env-filter", "json"] }
