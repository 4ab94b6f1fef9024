[package]
name = "atlas621"
version = "0.1.0"
edition = "2021"
publish = false

[dependencies]
anyhow = "1"
arrow = { version = "*", default-features = false, features = ["ipc"] }
clap = { version = "4", features = ["derive"] }
crossbeam-channel = "0.5"
csv = "1"
flate2 = "1"
geo = "*"
hex = "0.4"
humantime = "2"
jiff = "0.2"
leiden-rs = "*"
log = "0.4"
nalgebra = "*"
polylabel = "*"
rand = "0.9"
rayon = "1"
regex = "1"
rustc-hash = "2"
serde = { version = "1", features = ["derive"] }
serde_json = "1"
sha2 = "0.10"
tracing = "0.1"
tracing-subscriber = { version = "0.3", features = ["env-filter"] }
ts-rs = "*"
ureq = "3"
