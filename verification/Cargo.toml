[package]
name = "mbox_viewer"
version = "0.1.0"
edition = "2021"
publish = false

[dependencies]
chrono = "0.4"
crossbeam-channel = "0.5"
memmap2 = "0.9"
quoted_printable = "0.5"
rfc2047-decoder = "*"
rust-bert = "*"
strum = { version = "*", features = ["derive"] }
tracing = "0.1"
tracing-subscriber = { version = "0.3", features = ["env-filter"] }
