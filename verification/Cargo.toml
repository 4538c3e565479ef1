[package]
name = "arber"
version = "0.1.0"
edition = "2021"
publish = false

[dependencies]
blake2 = "0.10"
parity-scale-codec = { version = "3", features = ["derive"] }
scale-info = { version = "2", features = ["derive"] }
displaydoc = "0.2"
