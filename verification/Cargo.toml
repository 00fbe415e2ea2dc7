[package]
name = "aerugo"
version = "0.1.0"
edition = "2021"
publish = false

[dependencies]
slotmap = "1"
ash = "0.37"
wayland-server = "0.31"
clap = { version = "4", features = ["derive"] }
thiserror = "1"
tracing = "0.1"
tracing-subscriber = { version = "0.3", features = ["env-filter"] }

[dev-dependencies]
drm-fourcc = "2"
