[package]
name = "localcodepilot"
version = "0.1.0"
edition = "2021"
publish = false

[dependencies]
serde_json = "1"
sysinfo = { version = "0.33", default-features = false, features = ["system"] }
