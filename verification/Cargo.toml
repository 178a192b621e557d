[package]
name = "boyl"
version = "0.1.0"
edition = "2021"
publish = false

[dependencies]
glob = "0.3"
argh = "0.1"
colored = "2"
exitcode = "1"
futures = "0.3"
parking_lot = "0.12"
read_input = "0.8"
serde = { version = "1", features = ["derive"] }
serde_json = "1"
shellexpand = "2"
termion = "1.5"
tokio = { version = "1", features = ["rt-multi-thread", "fs", "time", "sync", "io-util", "macros"] }
tui = { version = "0.16", default-features = false, features = ["termion"] }
