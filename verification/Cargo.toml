[package]
name = "bandmeter"
version = "0.1.0"
edition = "2021"
publish = false

[dependencies]
chrono = "=0.4.45"
anyhow = "=1.0.104"
rusqlite = { version = "=0.41.1", features = ["bundled"] }
tokio = { version = "=1.54.1", features = ["macros", "rt-multi-thread", "signal", "sync", "time"] }
tokio-util = "=0.7.20"
aya = { version = "=0.13.1", features = ["async_tokio"] }
bytes = "=1.12.1"
libc = "=0.2.191"
