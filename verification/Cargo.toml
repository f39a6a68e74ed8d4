[package]
name = "fastssh"
version = "0.1.0"
edition = "2021"
publish = false

[dependencies]
anyhow = "=1.0.104"
chrono = "=0.4.45"
crossterm = "=0.25.0"
dirs = "=7.0.0"
ssh_cfg = "=0.3.0"
tokio = { version = "=1.54.1", features = ["macros", "rt-multi-thread", "fs"] }
tui = "=0.19.0"
