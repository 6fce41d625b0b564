[package]
name = "resonate-library"
version = "0.1.0"
edition = "2021"
publish = false

[dependencies]
unicode-normalization = "=0.1.26"
thiserror = "=2.0.21"
ahash = "0.8"
