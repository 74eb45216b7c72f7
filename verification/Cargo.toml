[package]
name = "linux_disk_prune"
version = "0.3.0"
edition = "2021"
publish = false

[dependencies]
anyhow = "1"
bytesize = "2"
clap = { version = "4", default-features = false, features = ["derive", "error-context", "help", "std", "usage"] }
eframe = { version = "0.34", default-features = false, features = ["default_fonts", "glow", "wgpu", "x11"] }
ratatui = { version = "0.30", default-features = false, features = ["crossterm"] }
rayon = "1"
serde_json = "1"
signal-hook = { version = "0.3", features = ["iterator"] }
sysinfo = { version = "0.38", default-features = false, features = ["disk"] }
