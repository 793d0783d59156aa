[package]
name = "asmcpu"
version = "0.1.0"
edition = "2021"
publish = false

[dependencies]
ndarray = "*"
rayon = "*"
serde = { version = "*", features = ["derive"] }
serde_json = "*"
