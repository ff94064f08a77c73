[package]
name = "savetensor_disksort"
version = "0.1.0"
edition = "2021"
publish = false

[dependencies]
blake3 = { version = "1", features = ["rayon", "pure"] }
chrono = { version = "0.4", features = ["serde"] }
serde = { version = "1", features = ["derive"] }
serde_json = "1"
clap = { version = "4", features = ["derive"] }
crossterm = "0.28"
ratatui = "0.29"
rayon = "1"
sysinfo = "0.33"
thiserror = "1"
memmap2 = "0.9"
walkdir = "2"
env_logger = "0.11"
log = "0.4"
