[package]
name = "par2-rs"
version = "0.1.0"
edition = "2021"
publish = false

[dependencies]
crc32fast = "1"
md-5 = "0.10"
rayon = "1"
thiserror = "1"
tracing = "0.1"
tracing-subscriber = { version = "0.3", features = ["env-filter"] }
