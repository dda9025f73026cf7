[package]
name = "redmine_to_slack"
version = "0.1.0"
edition = "2021"
publish = false

[dependencies]
anyhow = "1"
chrono = "0.4"
clap = { version = "4", features = ["derive"] }
feed-rs = "*"
humantime = "2"
proc-exit = "*"
regex = "1"
serde = { version = "1", features = ["derive"] }
serde_json = "1"
signal-hook = "0.3"
tinytemplate = "1"
ureq = { version = "2", default-features = false }
