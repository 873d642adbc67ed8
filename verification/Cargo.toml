[package]
name = "nasir"
version = "0.1.0"
edition = "2021"
publish = false

[dependencies]
image = "*"
reqwest = { version = "*", default-features = false, features = ["blocking", "rustls-tls"] }
tokio = { version = "*", features = ["rt-multi-thread"] }
clap = { version = "*", features = ["derive"] }
crossterm = "*"
cli-clipboard = "*"
