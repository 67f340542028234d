[package]
name = "blink"
version = "0.1.0"
edition = "2021"
publish = false

[dependencies]
chrono = "0.4"
directories = "5"
image = { version = "0.25", default-features = false, features = ["png"] }
resvg = { version = "0.45", default-features = false }
serde = { version = "1", features = ["derive"] }
toml = "0.8"
anyhow = "1"
tracing = "0.1"
tracing-subscriber = { version = "0.3", features = ["env-filter"] }
ctrlc = "3"
libc = "0.2"
x11rb = "0.13"
xcap = "0.2"
ksni = "0.2"
crossbeam-channel = "0.5"
