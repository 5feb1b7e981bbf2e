[package]
name = "instant_runoff"
version = "0.1.0"
edition = "2021"
publish = false

[dependencies]
csv = "=1.4.0"
rfd = { version = "=0.17.2", default-features = false, features = ["xdg-portal"] }
