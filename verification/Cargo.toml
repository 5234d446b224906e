[package]
name = "rustqc"
version = "0.1.0"
edition = "2021"
publish = false

[dependencies]
needletail = "=0.7.3"
indicatif = "=0.18.6"
clap = { version = "=4.6.7", features = ["derive"] }
serde = { version = "=1.0.229", features = ["derive"] }
serde_json = "=1.0.154"
tera = { version = "=2.4.0", features = ["glob_fs"] }
chrono = "=0.4.45"
whoami = "=2.1.3"
