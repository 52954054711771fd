[package]
name = "vscode_launcher"
version = "0.1.0"
edition = "2021"
publish = false

[dependencies]
serde = { version = "1", features = ["derive"] }
serde_json = "1"
sysinfo = "0.33"
dirs = "6"
libc = "0.2"
log = "0.4"
thiserror = "2"

[dev-dependencies]
tempfile = "3"
