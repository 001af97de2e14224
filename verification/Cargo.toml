[package]
name = "ush"
version = "0.1.0"
edition = "2021"
publish = false

[dependencies]
crc = "3"
rustfft = "6"
serde = { version = "1", features = ["derive"] }
serde_json = "1"
thiserror = "1"
log = "0.4"
env_logger = "0.10"
clap = { version = "4", features = ["derive"] }
tokio = { version = "1", features = ["rt-multi-thread", "macros", "sync", "time"] }
cpal = "0.15"
hound = "3"
crossterm = "0.27"
chrono = { version = "0.4", default-features = false, features = ["std"] }
colorgrad = "0.6"
image = { version = "0.24", default-features = false, features = ["png"] }
plotters = { version = "0.3", default-features = false, features = ["bitmap_backend", "bitmap_encoder", "line_series"] }
