[package]
name = "hive"
version = "0.1.0"
edition = "2021"
publish = false

[dependencies]
actix = "=0.13.5"
anyhow = "=1.0.104"
crossterm = "=0.29.0"
env_logger = "=0.11.11"
futures = "=0.3.34"
log = "=0.4.35"
rand = "=0.10.3"
ratatui = "=0.30.2"
rig-core = { version = "=0.32.0", default-features = false }
textwrap = "=0.16.4"
tokio = { version = "=1.54.1", features = ["sync", "time", "rt", "macros"] }
