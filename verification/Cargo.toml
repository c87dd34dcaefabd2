[package]
name = "assembly_graph"
version = "0.1.0"
edition = "2021"
publish = false

[dependencies]
anyhow = "=1.0.104"
awry = "=0.3.1"
clap = { version = "=4.6.7", features = ["derive"] }

[dev-dependencies]
tempfile = "=3.27.0"
