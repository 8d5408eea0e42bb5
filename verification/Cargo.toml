[package]
name = "binspector"
version = "0.1.0"
edition = "2021"
publish = false

[dependencies]
anyhow = "*"
clap = { version = "*", features = ["derive"] }
hex = "*"
md-5 = "*"
regex = "*"
serde = { version = "*", features = ["derive"] }
serde_json = "*"
sha1 = "*"
sha2 = "*"
time = { version = "*", features = ["formatting"] }
