[package]
name = "sigma_updates"
version = "0.1.0"
edition = "2021"
publish = false

[dependencies]
debversion = "0.4"
ar = "0.9"
tar = "0.4"
flate2 = "1"
xz2 = "0.1"
serde = { version = "1", features = ["derive"] }
serde_json = "1"
thiserror = "2"
chrono = { version = "0.4", features = ["serde"] }
clap = { version = "4", features = ["derive", "env"] }
ureq = { version = "3", features = ["native-tls"] }
warp = "0.3"
tokio = { version = "1", features = ["full"] }
bytes = "1"
futures-util = "0.3"
askama = "0.14"
