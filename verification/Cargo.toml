[package]
name = "sat_tunnel"
version = "0.1.0"
edition = "2021"
publish = false

[dependencies]
tokio = { version = "=1.54.1", features = ["rt-multi-thread", "macros", "net", "time", "signal"] }
tokio-tun = "=0.15.2"
