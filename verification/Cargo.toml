[package]
name = "avbroot"
version = "0.1.0"
edition = "2021"
publish = false

[dependencies]
anyhow = "1"
cap-std = "2"
cap-tempfile = "2"
clap = { version = "4", features = ["derive"] }
hex = "0.4"
rayon = "1"
ring = "0.17"
rsa = "0.9"
rustix = { version = "0.38", features = ["fs", "process"] }
tempfile = "3"
topological-sort = "0.2"
tracing = "0.1"
tracing-subscriber = { version = "0.3", features = ["env-filter", "json"] }
x509-cert = "0.2"
zip = { version = "0.6", default-features = false, features = ["deflate"] }
