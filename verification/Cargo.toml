[package]
name = "mcap_viewer"
version = "0.1.0"
edition = "2021"
publish = false

[dependencies]
hashbrown = "0.14"
anyhow = "1"
thiserror = "1"
log = "0.4"
env_logger = { version = "0.11", default-features = false }
clap = { version = "4", features = ["derive"] }
serde = { version = "1", features = ["derive"] }
ron = "0.8"
chrono = { version = "0.4", default-features = false, features = ["std"] }
crossbeam-channel = "0.5"
rayon = "1"
mcap = "0.12"
nohash-hasher = "0.2"
egui = "0.27"
egui_dock = { version = "0.12", features = ["serde"] }
egui_plot = "0.27"
egui_extras = { version = "0.27", default-features = false }
egui_autocomplete = "5.0.0"
