[package]
name = "elrs_uid_lookup"
version = "0.1.0"
edition = "2021"
publish = false

[dependencies]
md-5 = "0.10"
memchr = "2"
anyhow = "1"
bytesize = "1"

[dependencies.ureq]
version = "2"
default-features = false
