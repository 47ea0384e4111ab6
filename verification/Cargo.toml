[package]
name = "presence"
version = "0.1.0"
edition = "2021"
publish = false

[dependencies]
parking_lot = "0.12"
rocket = { version = "0.5", features = ["json"] }
chrono = "0.4.24"
clap = { version = "4.5.17", features = ["derive"] }
convert_case = "0.6.0"
indoc = "2"
