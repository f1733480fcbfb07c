[package]
name = "disk_report"
version = "0.1.0"
edition = "2021"
publish = false

[dependencies]
memchr = "2"
memmap2 = "0.9"
once_cell = "1"
serde = { version = "1", features = ["derive"] }
