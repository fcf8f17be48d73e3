[package]
name = "synth_core"
version = "0.1.0"
edition = "2021"
publish = false

[dependencies]
rtrb = "=0.3.6"
serde = { version = "=1.0.229", features = ["derive"] }
serde_yaml_ng = "=0.10.0"
hound = "=3.5.1"
log = "=0.4.35"
libc = "=0.2.191"
cpal = { version = "=0.18.2", default-features = false }
device_query = "*"
syn = { version = "=2.0.119", features = ["full"] }
quote = "=1.0.47"
