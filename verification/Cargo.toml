[package]
name = "tokio-websockets"
version = "0.11.4"
edition = "2021"
publish = false

[dependencies]
simdutf8 = "=0.1.5"
sha1_smol = "=1.0.1"
base64 = "=0.22.1"
httparse = "=1.10.1"
fastrand = "=2.5.0"
flate2 = { version = "=1.1.10", features = ["zlib-rs"] }
bytes = "=1.12.1"
http = "=1.5.0"
tokio = { version = "=1.54.1", features = ["io-util", "net", "rt"] }
tokio-util = { version = "=0.7.20", features = ["codec", "io"] }
futures-core = "=0.3.34"
futures-sink = "=0.3.34"
futures-util = { version = "=0.3.34", default-features = false, features = ["sink", "std"] }
tokio-rustls = { version = "=0.26.6", default-features = false, features = ["ring", "tls12"] }
rustls-pki-types = "=1.15.1"
webpki-roots = "=0.26.11"
