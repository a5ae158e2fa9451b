[package]
name = "git-vdb"
version = "0.1.0"
edition = "2021"
publish = false

[dependencies]
sha2 = "0.10"
hex = "0.4"
regex = "1"
serde = { version = "1", features = ["derive"] }
serde_json = "1"
git2 = "*"
thiserror = "2"
clap = { version = "4", features = ["derive"] }
clap_complete = "4"
tempfile = "3"
