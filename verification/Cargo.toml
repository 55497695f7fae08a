[package]
name = "chronosynd"
version = "0.1.0"
edition = "2021"
publish = false

[dependencies]
sha2 = "0.10"
hex = "0.4"
serde = { version = "1", features = ["derive"] }
serde_json = "1"
rusqlite = { version = "0.31", features = ["bundled"] }
clap = { version = "4", features = ["derive", "env"] }
csv = "1"
ndarray = "0.16"
statrs = "0.17"
anyhow = "1"
thiserror = "1"
aya = "0.13"
