[package]
name = "rustic"
version = "0.1.0"
edition = "2021"
publish = false

[dependencies]
anyhow = "=1.0.104"
bytesize = "=1.3.3"
chrono = "=0.4.45"
clap = { version = "=4.6.7", features = ["derive"] }
comfy-table = "=7.2.2"
gethostname = "=0.4.3"
ignore = "=0.4.33"
log = "=0.4.34"
path-absolutize = "=3.1.1"
rayon = "=1.12.0"
serde = { version = "1", features = ["derive"] }
serde_json = "1"
sha2 = "=0.10.9"
users = "=0.11.0"
walkdir = "=2.5.0"
