[package]
name = "applesauce"
version = "0.1.0"
edition = "2021"
publish = false

[dependencies]
flate2 = "1"
libc = "0.2"
clap = { version = "4", features = ["derive"] }
crossbeam-channel = "0.5"
oneshot = "0.1"
tempfile = "3"
tracing = "0.1"
tracing-subscriber = "0.3"
indicatif = "0.17"
humansize = "2"
lzfse-sys = "1"
memchr = "2"
walkdir = "2"
cfg-if = "1"
