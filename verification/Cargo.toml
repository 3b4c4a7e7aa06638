[package]
name = "hbb_common"
version = "0.1.0"
edition = "2021"
publish = false

[dependencies]
anyhow = "1"
bytes = "1"
tokio = { version = "1", features = ["net", "time", "rt"] }
tokio-socks = "0.5"
tokio-util = { version = "0.7", features = ["codec"] }
winapi = { version = "0.3", features = ["minwindef", "sysinfoapi", "winbase", "winnt"] }
