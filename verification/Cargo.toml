[package]
name = "component-monitor"
version = "0.1.0"
edition = "2021"
publish = false

[dependencies]
anyhow = "1"
clap = { version = "4", features = ["derive", "env"] }
log = "0.4"
nix = { version = "*", features = ["inotify"] }
signal-hook = "*"
systemd-journal-logger = "*"
walkdir = "2"
