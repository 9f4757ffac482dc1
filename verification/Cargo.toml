[package]
name = "exchange"
version = "0.1.0"
edition = "2021"
publish = false

[dependencies]
async-nats = "=0.51.0"
axum = { version = "=0.8.9", features = ["ws"] }
axum-extra = { version = "=0.10.3", features = ["cookie"] }
bcrypt = "=0.19.3"
chrono = "=0.4.45"
dotenvy = "=0.15.7"
futures = "=0.3.34"
futures-util = "=0.3.34"
jsonwebtoken = "=9.3.1"
openssl = "=0.10.82"
postgres-openssl = "=0.5.3"
prost = "=0.14.4"
redis = { version = "=1.8.1", features = ["tokio-comp", "connection-manager"] }
rust_decimal = { version = "=1.43.0", features = ["db-tokio-postgres"] }
serde = { version = "=1.0.229", features = ["derive"] }
serde_json = "=1.0.154"
tokio = { version = "=1.54.1", features = ["macros", "rt-multi-thread", "sync", "net", "time"] }
tokio-postgres = { version = "=0.7.18", features = ["with-uuid-1"] }
tower-http = { version = "=0.7.1", features = ["cors"] }
uuid = { version = "=1.29.1", features = ["v4"] }
