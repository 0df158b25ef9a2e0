[package]
name = "keysync"
version = "0.1.0"
edition = "2021"
publish = false

[dependencies]
anyhow = "*"
clap = "*"
cron = "*"
dirs = "*"
env_logger = "*"
filetime = "*"
job_scheduler = "*"
log = "*"
nix = { version = "*", features = ["user", "fs"] }
reqwest = { version = "*", default-features = false, features = ["blocking"] }
rusqlite = { version = "*", features = ["bundled"] }
rustyline = "*"
url = "*"

[dev-dependencies]
assert_fs = "*"
