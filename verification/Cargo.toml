[package]
name = "identicon"
version = "0.1.0"
edition = "2021"
publish = false

[dependencies]
axum = "0.6"
bytes = "1"
clap = { version = "4", features = ["derive"] }
faststr = { version = "0.2", features = ["serde"] }
hex = "0.4"
humantime = "2"
image = { version = "0.24", default-features = false, features = ["png"] }
lru = { version = "0.10", default-features = false }
md-5 = "0.10"
quick_cache = "0.3"
shuttle-axum = "0.34"
shuttle-runtime = "0.34"
tokio = { version = "1", features = ["macros", "rt-multi-thread", "signal", "sync"] }
tower = { version = "0.4", features = ["limit", "load-shed", "timeout", "util"] }
tower-http = { version = "0.4", features = ["trace"] }
tracing = "0.1"
tracing-subscriber = "0.3"
