[package]
name = "save_scummer"
version = "0.1.0"
edition = "2021"
publish = false

[dependencies]
postcard = { version = "1", features = ["use-std"] }
notify = "6"
directories = "5"
crossterm = "0.27"
ratatui = "0.26"
chrono = "0.4"
log = "0.4"
