[package]
name = "tagger"
version = "0.1.0"
edition = "2021"
publish = false

[dependencies]
anyhow = "=1.0.104"
argmin = "=0.10.0"
argmin-math = { version = "=0.4.0", features = ["nalgebra_latest"] }
argmin-observer-slog = "=0.1.0"
bincode = "=1.3.3"
clap = { version = "=4.6.7", features = ["derive"] }
clap_complete = "=4.6.11"
crossbeam = "=0.8.5"
crossterm = "=0.28.1"
image = "=0.25.10"
lru = "=0.12.5"
mime_guess = "=2.0.5"
nalgebra = "=0.32.6"
rand = "=0.8.8"
ratatui = { version = "=0.28.1", features = ["unstable-widget-ref"] }
ratatui-image = "=2.0.1"
serde = { version = "=1.0.229", features = ["derive"] }
serde_json = "=1.0.154"
walkdir = "=2.5.0"
