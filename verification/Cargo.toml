[package]
name = "pnets"
version = "0.1.0"
edition = "2021"
publish = false

[dependencies]
bimap = "0.6"
clap = { version = "3", features = ["derive"] }
log = "0.4"
quick-xml = { version = "0.22", features = ["serialize"] }
serde = { version = "1", features = ["derive"] }
serde_json = "1"
wait-timeout = "0.2"

[dev-dependencies]
fastrand = "1"
