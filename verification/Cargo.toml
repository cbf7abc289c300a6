[package]
name = "monte_carlo_cdt"
version = "0.1.0"
edition = "2021"
publish = false

[dependencies]
fastrand = "*"
serde = { version = "1", features = ["derive"] }
serde_json = "1"
structopt = "0.3"
