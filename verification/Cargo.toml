[package]
name = "par"
version = "0.1.0"
edition = "2021"
publish = false

[dependencies]
rand = "0.8"
rand_pcg = "0.3"
csv = "1"
colored = "2"
serde = { version = "1", features = ["derive"] }
