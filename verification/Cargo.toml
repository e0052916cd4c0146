[package]
name = "unicorn"
version = "0.1.0"
edition = "2021"
publish = false

[dependencies]
anyhow = "=1.0.104"
async-trait = "=0.1.92"
chrono = { version = "=0.4.45", default-features = false }
crossterm = "=0.28.1"
gix = { version = "=0.90.0", default-features = false, features = ["sha1"] }
rand = "=0.10.3"
ratatui = "=0.29.0"
russh = "=0.65.0"
serde = { version = "=1.0.229", features = ["derive"] }
sysinfo = "=0.40.1"
thiserror = "=2.0.21"
tokio = { version = "=1.54.1", features = ["macros", "rt-multi-thread"] }
toml = "=0.8.23"
tracing = "=0.1.44"
tracing-subscriber = { version = "=0.3.23", features = ["env-filter"] }
