[package]
name = "apt_edsp"
version = "0.1.0"
edition = "2021"
publish = false

[dependencies]
serde = { version = "1", features = ["derive"] }
rfc822-like = "*"
thiserror = "*"
itertools = "*"
