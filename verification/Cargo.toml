[package]
name = "vcd"
version = "0.1.0"
edition = "2021"
publish = false

[dependencies]
chrono = "*"
crossterm = "*"
fern = "*"
log = "*"
ratatui = "*"
thiserror = "*"
