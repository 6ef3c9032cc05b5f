[package]
name = "chronicle"
version = "0.1.0"
edition = "2021"
publish = false

[dependencies]
globset = "0.4"
uuid = { version = "1", features = ["v4"] }
sha2 = "0.10"
time = "0.3"
serde = { version = "1", features = ["derive"] }
serde_json = "1"
base64 = "0.22"
urlencoding = "2"
reqwest = { version = "0.12", default-features = false, features = ["json"] }
glob = "0.3"
dirs = "*"
walkdir = "2"
sevenz-rust = "*"
thiserror = "2"
serde_yaml_ng = "*"
tokio = { version = "1", features = ["rt-multi-thread", "macros", "time", "fs", "sync"] }
notify = "*"
keyring = "*"
opendal = { version = "*", default-features = false, features = ["services-memory"] }
winreg = "*"
