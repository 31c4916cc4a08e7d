[package]
name = "instance_sync"
version = "0.1.0"
edition = "2021"
publish = false

[dependencies]
relative-path = "*"
walkdir = "*"
junction = "*"
log = "*"
serde = { version = "*", features = ["derive"] }
serde_json = "*"
enumset = { version = "*", features = ["serde"] }
enum-map = "*"
strum = { version = "*", features = ["derive"] }
