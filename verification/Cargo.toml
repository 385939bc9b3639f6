[package]
name = "ttyama"
version = "0.1.0"
edition = "2021"
publish = false

[dependencies]
ratatui = "0.29"
crossterm = "0.28"
chrono = "0.4"
tokio = { version = "1", features = ["macros", "rt-multi-thread", "time"] }
ctrlc = "3"
