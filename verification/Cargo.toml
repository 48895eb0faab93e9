[package]
name = "tasktrack"
version = "0.1.0"
edition = "2021"
publish = false

[dependencies]
chrono = "*"
bdays = "*"
chronoutil = "*"
num-traits = "*"
clap = { version = "*", features = ["derive"] }
dirs = "*"
prettytable-rs = "*"
rusqlite = { version = "*", features = ["bundled"] }
thiserror = "*"
