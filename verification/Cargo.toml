[package]
name = "ldpc_rust"
version = "0.1.0"
edition = "2021"
publish = false

[dependencies]
axum = "*"
tokio = { version = "*", features = ["macros", "rt-multi-thread", "net", "signal"] }
tower-http = { version = "*", features = ["timeout"] }
tracing = "*"
tracing-subscriber = { version = "*", features = ["env-filter", "fmt"] }
clap = { version = "*", features = ["derive"] }
serde = { version = "*", features = ["derive"] }
serde_arrays = "*"
rand = "*"
rand_distr = "*"
