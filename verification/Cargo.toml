[package]
name = "nix_output_monitor"
version = "0.1.0"
edition = "2021"
publish = false

[dependencies]
unicode-width = "=0.2.3"
serde = { version = "=1.0.229", features = ["derive"] }
serde_json = "=1.0.154"
chrono = "=0.4.45"
crossbeam-channel = "=0.5.17"
ctrlc = "=3.5.2"
fd-lock = "=4.0.4"
notify = "=8.2.1"
terminal_size = "=0.4.4"
