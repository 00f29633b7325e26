[package]
name = "ec"
version = "0.3.0"
edition = "2021"
publish = false

[dependencies]
clap = { version = "4", features = ["derive"] }
evdev = "0.13"
fs2 = "0.4"
libc = "0.2"
signal-hook = "0.3"
thiserror = "2"
