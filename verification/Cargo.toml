[package]
name = "drone_net"
version = "0.1.0"
edition = "2021"
publish = false

[dependencies]
crossbeam-channel = "*"
rand = "0.8"
serde = { version = "1", features = ["derive"] }
serde_json = "1"
toml = "*"
image = { version = "*", default-features = false, features = ["png"] }
tokio = { version = "1", features = ["rt-multi-thread", "macros", "net"] }
hyper = { version = "1", features = ["http1", "server"] }
hyper-util = { version = "*", features = ["tokio"] }
