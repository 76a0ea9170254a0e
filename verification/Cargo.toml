[package]
name = "http_file_parser"
version = "0.1.0"
edition = "2021"
publish = false

[dependencies]
clap = { version = "*", features = ["derive"] }
reqwest = { version = "*", default-features = false, features = ["blocking", "rustls-tls"] }
thiserror = "*"
