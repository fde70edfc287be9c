[package]
name = "table_codec"
version = "0.1.0"
edition = "2021"
publish = false

[dependencies]
zip = "*"
chrono = "*"
rust_xlsxwriter = "*"
spreadsheet-ods = "*"
icu_locid = "*"
csv = "*"
quick-xml = "*"
serde = { version = "*", features = ["derive"] }
serde_json = "*"
anyhow = "*"
axum = { version = "*", features = ["multipart"] }
axum-extra = { version = "*", features = ["cookie"] }
tokio = { version = "*", features = ["macros", "rt-multi-thread", "net"] }
tower-http = { version = "*", features = ["cors"] }
sqlx = { version = "*", features = ["sqlite", "runtime-tokio"] }
argon2 = "*"
jsonwebtoken = "*"
rand_core = { version = "0.6", features = ["std", "getrandom"] }
dotenv = "*"
time = "*"
