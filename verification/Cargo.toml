[package]
name = "rsomics-silhouette"
version = "0.1.0"
edition = "2021"
publish = false

[dependencies]
fast-float2 = "*"
clap = { version = "4", features = ["derive"] }
serde = { version = "1", features = ["derive"] }
serde_json = "1"
rayon = "1"
