[package]
name = "buildq"
version = "0.1.0"
edition = "2021"
publish = false

[dependencies]
jobserver = "*"
crossbeam = "*"
term = "*"
serde = { version = "*", features = ["derive"] }
serde_json = "*"
semver = "*"
