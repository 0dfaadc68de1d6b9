[package]
name = "gitsama"
version = "0.1.0"
edition = "2021"
publish = false

[dependencies]
clap = { version = "4", features = ["derive"] }
dirs = "*"
rand = "0.9"
rodio = "0.21"
serde = { version = "1", features = ["derive"] }
serde_json = "1"
thiserror = "*"
toml = "*"
windows-sys = { version = "*", features = ["Win32_Foundation", "Win32_System_Diagnostics_ToolHelp"] }
