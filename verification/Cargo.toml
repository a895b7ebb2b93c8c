[package]
name = "gadget_finder"
version = "0.1.0"
edition = "2021"
publish = false

[dependencies]
anyhow = "=1.0.104"
async-std = { version = "=1.13.2", features = ["attributes"] }
chromiumoxide = "=0.7.0"
clap = { version = "=4.6.7", features = ["derive", "env"] }
serde_json = "=1.0.154"
tempdir = "=0.3.7"
tracing = "=0.1.44"
tracing-subscriber = "=0.3.23"
which = "=8.0.6"
