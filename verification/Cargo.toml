[package]
name = "mvsqlite"
version = "0.1.0"
edition = "2021"
publish = false

[dependencies]
anyhow = "1"
backtrace = "0.3"
blake3 = { version = "1", default-features = false, features = ["std", "pure"] }
bytes = "1"
clap = { version = "4", features = ["derive", "env"] }
constant_time_eq = "0.3"
foundationdb = { version = "0.8", default-features = false, features = ["embedded-fdb-include", "fdb-7_1"] }
futures = "0.3"
hex = "0.4"
itertools = "0.10"
moka = { version = "0.12", features = ["future"] }
rand = "0.8"
reqwest = { version = "0.11", default-features = false, features = ["json"] }
serde = { version = "1", features = ["derive"] }
serde_json = "1"
thiserror = "1"
tokio = { version = "1", features = ["macros", "rt-multi-thread", "sync", "time"] }
tracing = "0.1"
tracing-subscriber = { version = "0.3", features = ["env-filter", "json"] }
