[package]
name = "flugzeug"
version = "0.1.0"
edition = "2021"
publish = false

[dependencies]
fatfs = "0.3"
reqwest = { version = "0.11", default-features = false, features = ["blocking", "rustls-tls"] }
