[package]
name = "esh"
version = "0.1.0"
edition = "2021"
publish = false

[dependencies]
clap = { version = "*", features = ["derive"] }
os_str_bytes = "*"
thiserror = "*"
tracing = "*"
tracing-log = "*"
tracing-panic = "*"
tracing-subscriber = { version = "*", features = ["env-filter"] }
vfs-kit = "*"
