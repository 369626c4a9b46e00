[package]
name = "rust_simulation"
version = "0.1.0"
edition = "2021"
publish = false

[dependencies]
rand = "0.9"
serde = { version = "1", features = ["derive"] }
serde_json = "1"
toml = "0.8"
thiserror = "1"
log = "0.4"
clap = { version = "4", features = ["derive"] }
directories = "5"
noise = "0.9"
rayon = "1"
crossbeam-channel = "0.5"
