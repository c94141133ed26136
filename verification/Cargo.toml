[package]
name = "anytype_caldav"
version = "0.1.0"
edition = "2021"
publish = false

[dependencies]
anytype = { version = "=0.2.9", default-features = false }
async-trait = "0.1"
axum = { version = "0.8", default-features = false, features = ["http1", "json", "tokio"] }
base64 = "=0.22.1"
chrono = "=0.4.45"
chrono-tz = "=0.10.4"
clap = { version = "4", features = ["derive"] }
futures = "0.3"
hex = "=0.4.3"
hmac = "=0.13.0"
httpdate = "=1.0.3"
humantime = "=2.4.0"
icalendar = { version = "=0.17.17", features = ["chrono-tz"] }
openssl = "0.10"
rrule = "=0.14.0"
rusqlite = { version = "*", features = ["bundled"] }
serde = { version = "1", features = ["derive"] }
serde_json = "1"
sha2 = "=0.11.1"
thiserror = "2"
tokio = { version = "1", features = ["rt-multi-thread", "macros", "net", "signal", "sync", "time"] }
toml = "*"
tracing = "0.1"
tracing-subscriber = { version = "0.3", features = ["env-filter"] }
web-push = { version = "*", default-features = false, features = ["hyper-client"] }
