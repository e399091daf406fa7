[package]
name = "mcp_toolkit"
version = "0.1.0"
edition = "2021"
publish = false

[dependencies]
async-trait = "*"
axum = "*"
clap = { version = "*", features = ["derive", "env"] }
memchr = "*"
rmcp = { version = "*", features = ["server", "transport-io", "transport-streamable-http-server"] }
serde_json = { version = "*", features = ["preserve_order"] }
tempfile = "*"
thiserror = "*"
tokio = { version = "*", features = ["io-std", "macros", "net", "rt-multi-thread", "signal", "time"] }
tracing = "*"
tracing-subscriber = { version = "*", features = ["env-filter"] }
