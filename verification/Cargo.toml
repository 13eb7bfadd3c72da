[package]
name = "dionysus"
version = "0.1.0"
edition = "2021"
publish = false

[dependencies]
yrs = "=0.28.0"
rand = "=0.9.5"
rustwell = "=0.3.1"
tokio = { version = "1", features = ["rt-multi-thread", "macros", "sync", "net", "time"] }
axum = { version = "0.8", features = ["ws"] }
axum-extra = { version = "*", features = ["cookie"] }
futures-util = "*"
serde = { version = "1", features = ["derive"] }
sqlx = { version = "0.8", default-features = false, features = ["runtime-tokio", "postgres"] }
thiserror = "*"
anyhow = "*"
tracing = "*"
tracing-subscriber = { version = "*", features = ["env-filter", "json"] }
openidconnect = { version = "3", default-features = false, features = ["reqwest", "rustls-tls"] }
