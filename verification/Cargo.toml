[package]
name = "weevil"
version = "0.1.0"
edition = "2021"
publish = false

[dependencies]
mio = { version = "1", features = ["net", "os-poll"] }
rand = "0.9"
thiserror = "2"
