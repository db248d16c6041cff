[package]
name = "swamp"
version = "0.1.0"
edition = "2021"
publish = false

[dependencies]
anyhow = "=1.0.104"
ash = "=0.38.0"
axum = "=0.7.9"
clap = { version = "=4.6.7", features = ["derive"] }
crossbeam = "=0.8.5"
futures = "=0.3.34"
half = "=2.7.1"
libc = "=0.2.191"
libloading = "=0.8.9"
mlua = { version = "0.10", features = ["luajit", "vendored"] }
prometheus = "=0.13.4"
rand = "=0.8.8"
rayon = "=1.12.0"
serde = { version = "=1.0.229", features = ["derive"] }
tokio = { version = "=1.54.1", features = ["full"] }
tracing = "=0.1.44"
tracing-subscriber = "=0.3.23"
