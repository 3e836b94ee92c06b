[package]
name = "mailiner_proxy"
version = "0.1.0"
edition = "2021"
publish = false

[dependencies]
axum = { version = "0.8", features = ["ws", "macros"] }
bytes = "1"
chrono = "0.4"
clap = { version = "4", features = ["derive"] }
futures-util = { version = "0.3", features = ["sink"] }
lazy_static = "1"
once_cell = "1"
prometheus-client = "0.22"
rusty_paseto = "0.7"
serde = { version = "1", features = ["derive"] }
slog = { version = "2", features = ["max_level_trace", "release_max_level_debug"] }
slog-async = "2"
slog-term = "2"
tokio = { version = "1", features = ["full"] }
