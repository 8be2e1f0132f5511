[package]
name = "gift"
version = "0.1.0"
edition = "2021"
publish = false

[dependencies]
anyhow = "1"
clap = { version = "4", features = ["derive"] }
diffy = "0.4"
flate2 = "1"
serde = { version = "1", features = ["derive"] }
serde_json = "1"
sha1 = "0.10"
ureq = "3"
