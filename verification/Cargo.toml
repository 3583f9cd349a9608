[package]
name = "probdisasm"
version = "0.1.0"
edition = "2021"
publish = false

[dependencies]
anyhow = "*"
capstone = "*"
flate2 = "*"
gimli = "*"
goblin = "*"
serde = { version = "*", features = ["derive"] }
serde_json = "*"
